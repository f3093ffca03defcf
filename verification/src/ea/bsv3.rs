//! The BSV3 sprite-animation container: its parts and its reader.

use crate::ea::file_buffer::{path_folder, path_name, Endian, FileBuffer, ReadError};
use crate::ea::layout::{
    animation_items, animation_record, animation_section, body, dialect_of, document,
    frame_index_items, group_items, group_record, grouped_body, header, layer_items, layer_record,
    layered_body, layered_frame, layered_frame_items, lemma_repeat_stays_failed, repeat,
    single_frame, single_frame_items, sprite_items, sprite_record, u16_at, u32_at, HeaderView,
    FORMAT_GROUPED, FORMAT_LAYERED, FORMAT_LAYERED_NAMED, FORMAT_PADDED,
};
use crate::ea::laws::{group_indices_in_range, lemma_document_well_formed, well_formed};
use crate::ea::wire::{available, value_of, Field};
use vstd::pervasive::unreached;
use vstd::prelude::*;
use vstd::utf8::encode_utf8;

verus! {

/// A named rectangle of the texture atlas.
#[derive(Debug, Clone)]
pub struct Sprite {
    pub name: String,
    pub x: u16,
    pub y: u16,
    /// At least 1.
    pub width: u16,
    /// At least 1.
    pub height: u16,
}

/// What a `Sprite` stands for.
pub struct SpriteView {
    pub name: Seq<char>,
    pub x: u16,
    pub y: u16,
    pub width: u16,
    pub height: u16,
}

impl View for Sprite {
    type V = SpriteView;

    open spec fn view(&self) -> SpriteView {
        SpriteView {
            name: self.name@,
            x: self.x,
            y: self.y,
            width: self.width,
            height: self.height,
        }
    }
}

impl DeepView for Sprite {
    type V = SpriteView;

    open spec fn deep_view(&self) -> SpriteView {
        self.view()
    }
}

/// One placed sprite of a frame.
///
/// The six numbers of the placement are kept as the bit patterns of 32-bit
/// IEEE 754 numbers, as they stand in the file: `f32::from_bits` gives the
/// number.
#[derive(Debug, Clone, Copy, PartialEq, Eq, Structural)]
pub struct Layer {
    /// The layer's place among the layers of its frame in the file.
    pub id: u16,
    /// The index of the sprite in the container's sprites.
    pub sprite: u16,
    pub x: u32,
    pub y: u32,
    pub scale_x: u32,
    pub skew_h: u32,
    pub skew_v: u32,
    pub scale_y: u32,
    /// 255 where the file holds no alpha.
    pub alpha: u8,
}

impl DeepView for Layer {
    type V = Layer;

    open spec fn deep_view(&self) -> Layer {
        *self
    }
}

/// The layers of one pose, in the reverse of their order in the file.
#[derive(Debug, Clone)]
pub struct Frame {
    pub layer_count: u16,
    pub layers: Vec<Layer>,
}

/// What a `Frame` stands for.
pub struct FrameView {
    pub layer_count: u16,
    pub layers: Seq<Layer>,
}

impl View for Frame {
    type V = FrameView;

    open spec fn view(&self) -> FrameView {
        FrameView { layer_count: self.layer_count, layers: self.layers@ }
    }
}

impl DeepView for Frame {
    type V = FrameView;

    open spec fn deep_view(&self) -> FrameView {
        self.view()
    }
}

/// The frames that make up one pose of the grouped dialect, as indices into
/// the container's frames.
#[derive(Debug, Clone)]
pub struct FrameGroup {
    pub frame_count: u16,
    pub frames: Vec<usize>,
}

/// What a `FrameGroup` stands for.
pub struct FrameGroupView {
    pub frame_count: u16,
    pub frames: Seq<usize>,
}

impl View for FrameGroup {
    type V = FrameGroupView;

    open spec fn view(&self) -> FrameGroupView {
        FrameGroupView { frame_count: self.frame_count, frames: self.frames@ }
    }
}

impl DeepView for FrameGroup {
    type V = FrameGroupView;

    open spec fn deep_view(&self) -> FrameGroupView {
        self.view()
    }
}

/// A named run of poses: frames, or groups in the grouped dialect. With
/// `start == end` it is the one pose `start`, else the poses from `start`
/// up to `end`, `end` left out.
#[derive(Debug, Clone)]
pub struct Animation {
    pub name: String,
    pub start: u16,
    pub end: u16,
}

/// What an `Animation` stands for.
pub struct AnimationView {
    pub name: Seq<char>,
    pub start: u16,
    pub end: u16,
}

impl View for Animation {
    type V = AnimationView;

    open spec fn view(&self) -> AnimationView {
        AnimationView { name: self.name@, start: self.start, end: self.end }
    }
}

impl DeepView for Animation {
    type V = AnimationView;

    open spec fn deep_view(&self) -> AnimationView {
        self.view()
    }
}

/// The layouts that a container can have. The format tag at its start says
/// which one it is.
#[derive(Debug, Clone, Copy, PartialEq, Eq, Structural)]
pub enum Dialect {
    /// Frames with a list of layers each.
    Layered,
    /// As `Layered`, with the name of the texture file in the head.
    LayeredNamed,
    /// Three reserved bytes behind the tag, and no frame section.
    Padded,
    /// Single-layer frames, and groups of frame indices.
    Grouped,
    /// Any other tag: no frame section.
    Other,
}

impl Dialect {
    /// The dialect that the format tag `format` selects.
    pub fn from_tag(format: u16) -> (dialect: Dialect)
        ensures
            dialect == dialect_of(format),
    {
        if format == FORMAT_LAYERED {
            Dialect::Layered
        } else if format == FORMAT_LAYERED_NAMED {
            Dialect::LayeredNamed
        } else if format == FORMAT_PADDED {
            Dialect::Padded
        } else if format == FORMAT_GROUPED {
            Dialect::Grouped
        } else {
            Dialect::Other
        }
    }
}

/// What a container holds, apart from the file it came from.
pub struct DocumentView {
    pub format: u16,
    pub data_type: u8,
    pub image_name: Seq<char>,
    pub sprites: Seq<SpriteView>,
    pub frames: Seq<FrameView>,
    pub groups: Seq<FrameGroupView>,
    pub animations: Seq<AnimationView>,
}

/// The pose that an animation from `start` to `end` shows at the tick
/// `timer`: `start` itself where the two are equal, else the poses from
/// `start` up to `end`, `end` left out, one per tick and round again.
pub open spec fn pose_at_tick(start: u16, end: u16, timer: usize) -> int {
    if start == end {
        start as int
    } else {
        start + timer as int % (end - start)
    }
}

/// Every index of the list is below `bound`.
pub open spec fn all_below(indices: Seq<usize>, bound: nat) -> bool {
    forall|i: int| 0 <= i < indices.len() ==> #[trigger] indices[i] < bound
}

/// The frames that make up the pose `pose` of a container, in the order
/// in which they are drawn, as indices into its frames: in the grouped
/// dialect the frames of the group `pose`, the last first, in every other
/// dialect the frame `pose` alone. `None` where the pose, or a frame that
/// it names, does not exist.
pub open spec fn frames_of_pose(content: DocumentView, pose: int) -> Option<Seq<usize>> {
    if dialect_of(content.format) == Dialect::Grouped {
        if 0 <= pose < content.groups.len() && all_below(
            content.groups[pose].frames,
            content.frames.len(),
        ) {
            Some(content.groups[pose].frames.reverse())
        } else {
            None
        }
    } else {
        if 0 <= pose < content.frames.len() {
            Some(seq![pose as usize])
        } else {
            None
        }
    }
}

/// The suffix of the texture file that goes with a container by default.
pub open spec fn texture_suffix() -> Seq<char> {
    seq!['.', 'r', 'g', 'b']
}

/// The path of the texture file of a container: in the container's folder,
/// under the name that the container gives or, where it gives none, under
/// the container's own name with the texture suffix.
pub open spec fn texture_path_of(
    folder: Seq<char>,
    name: Seq<char>,
    image_name: Seq<char>,
) -> Seq<char> {
    if image_name.len() == 0 {
        folder + name + texture_suffix()
    } else {
        folder + image_name
    }
}

/// What a reader hands to its caller, seen as what it stands for.
pub open spec fn decoded<T: DeepView>(r: Result<T, ReadError>) -> Result<T::V, ReadError> {
    match r {
        Ok(v) => Ok(v.deep_view()),
        Err(e) => Err(e),
    }
}

/// Reads a 16-bit field that is known to be there.
fn field_u16(file: &mut FileBuffer) -> (v: u16)
    requires
        2 <= available(old(file).data@, old(file).read_offset as int),
    ensures
        v == u16_at(old(file).data@, old(file).read_offset as int, old(file).endian),
        final(file).is_at(*old(file), old(file).read_offset + 2),
{
    match file.read_uint_16() {
        Ok(v) => v,
        Err(_) => unreached(),
    }
}

/// Reads a 32-bit field that is known to be there.
fn field_u32(file: &mut FileBuffer) -> (v: u32)
    requires
        4 <= available(old(file).data@, old(file).read_offset as int),
    ensures
        v == u32_at(old(file).data@, old(file).read_offset as int, old(file).endian),
        final(file).is_at(*old(file), old(file).read_offset + 4),
{
    match file.read_float_32() {
        Ok(v) => v,
        Err(_) => unreached(),
    }
}

/// Reads a byte that is known to be there.
fn field_u8(file: &mut FileBuffer) -> (v: u8)
    requires
        1 <= available(old(file).data@, old(file).read_offset as int),
    ensures
        v == old(file).data@[old(file).read_offset as int],
        final(file).is_at(*old(file), old(file).read_offset + 1),
{
    proof {
        reveal_with_fuel(crate::ea::wire::le_value, 2);
    }
    match file.read_uint_8() {
        Ok(v) => v,
        Err(_) => unreached(),
    }
}

/// Passes over `n` reserved bytes that are known to be there.
fn pass(file: &mut FileBuffer, n: usize)
    requires
        n <= available(old(file).data@, old(file).read_offset as int),
    ensures
        final(file).is_at(*old(file), old(file).read_offset + n),
{
    match file.skip(n) {
        Ok(()) => (),
        Err(_) => unreached(),
    }
}

impl Sprite {
    /// Reads one sprite record. A width or height of 0 is kept as 1.
    pub fn read(file: &mut FileBuffer) -> (r: Result<Sprite, ReadError>)
        ensures
            decoded(r) == value_of(
                sprite_record(old(file).data@, old(file).read_offset as int, old(file).endian),
            ),
            final(file).follows(
                *old(file),
                sprite_record(old(file).data@, old(file).read_offset as int, old(file).endian),
            ),
    {
        let start: usize = file.read_offset;
        match file.read_string_8() {
            Err(e) => Err(e),
            Ok(name) => {
                if file.remaining() < 8 {
                    file.read_offset = start;
                    return Err(ReadError::UnexpectedEnd);
                }
                let x: u16 = field_u16(file);
                let y: u16 = field_u16(file);
                let width: u16 = field_u16(file);
                let height: u16 = field_u16(file);
                Ok(
                    Sprite {
                        name,
                        x,
                        y,
                        width: if width == 0 {
                            1
                        } else {
                            width
                        },
                        height: if height == 0 {
                            1
                        } else {
                            height
                        },
                    },
                )
            },
        }
    }
}

impl Layer {
    /// Reads one layer record, which gets the id `id`. The record holds an
    /// alpha byte only where `data_type` is 1.
    pub fn read(file: &mut FileBuffer, id: u16, data_type: u8) -> (r: Result<Layer, ReadError>)
        ensures
            r == value_of(
                layer_record(
                    old(file).data@,
                    old(file).read_offset as int,
                    old(file).endian,
                    data_type,
                    id,
                ),
            ),
            final(file).follows(
                *old(file),
                layer_record(
                    old(file).data@,
                    old(file).read_offset as int,
                    old(file).endian,
                    data_type,
                    id,
                ),
            ),
    {
        let size: usize = if data_type == 1 {
            27
        } else {
            26
        };
        if file.remaining() < size {
            return Err(ReadError::UnexpectedEnd);
        }
        let sprite: u16 = field_u16(file);
        let x: u32 = field_u32(file);
        let y: u32 = field_u32(file);
        let scale_x: u32 = field_u32(file);
        let skew_v: u32 = field_u32(file);
        let skew_h: u32 = field_u32(file);
        let scale_y: u32 = field_u32(file);
        let alpha: u8 = if data_type == 1 {
            field_u8(file)
        } else {
            255
        };
        Ok(Layer { id, sprite, x, y, scale_x, skew_h, skew_v, scale_y, alpha })
    }
}

/// The layers `layers` in reverse order.
fn reversed(layers: Vec<Layer>) -> (r: Vec<Layer>)
    ensures
        r@ == layers@.reverse(),
{
    let mut r: Vec<Layer> = Vec::new();
    let mut i: usize = layers.len();
    while i > 0
        invariant
            i <= layers.len(),
            r.len() == layers.len() - i,
            forall|k: int| 0 <= k < r.len() ==> r[k] == layers[layers.len() - 1 - k],
        decreases i,
    {
        i = i - 1;
        r.push(layers[i]);
    }
    assert(r@ =~= layers@.reverse());
    r
}

impl Frame {
    /// Reads one frame of a layered dialect. The layers stand in the frame
    /// in the reverse of their order in the file; each keeps its place in
    /// the file as its id.
    pub fn read(file: &mut FileBuffer, data_type: u8) -> (r: Result<Frame, ReadError>)
        ensures
            decoded(r) == value_of(
                layered_frame(
                    old(file).data@,
                    old(file).read_offset as int,
                    old(file).endian,
                    data_type,
                ),
            ),
            final(file).follows(
                *old(file),
                layered_frame(
                    old(file).data@,
                    old(file).read_offset as int,
                    old(file).endian,
                    data_type,
                ),
            ),
    {
        let start: usize = file.read_offset;
        if file.remaining() < 3 {
            return Err(ReadError::UnexpectedEnd);
        }
        let layer_count: u16 = field_u16(file);
        pass(file, 1);
        match read_row::<Layer>(file, layer_count, data_type) {
            Err(e) => {
                file.read_offset = start;
                Err(e)
            },
            Ok(layers) => {
                assert(layers.deep_view() =~= layers@);
                Ok(Frame { layer_count, layers: reversed(layers) })
            },
        }
    }

    /// Reads one frame of the grouped dialect: a single layer record, which
    /// gets the id 0.
    pub fn read_single(file: &mut FileBuffer, data_type: u8) -> (r: Result<Frame, ReadError>)
        ensures
            decoded(r) == value_of(
                single_frame(
                    old(file).data@,
                    old(file).read_offset as int,
                    old(file).endian,
                    data_type,
                ),
            ),
            final(file).follows(
                *old(file),
                single_frame(
                    old(file).data@,
                    old(file).read_offset as int,
                    old(file).endian,
                    data_type,
                ),
            ),
    {
        match Layer::read(file, 0, data_type) {
            Err(e) => Err(e),
            Ok(layer) => {
                let mut layers: Vec<Layer> = Vec::new();
                layers.push(layer);
                assert(layers@ =~= seq![layer]);
                Ok(Frame { layer_count: 1, layers })
            },
        }
    }
}

impl FrameGroup {
    /// Reads one frame group. Its indices are kept as they are: nothing
    /// says here that a frame of that index exists.
    pub fn read(file: &mut FileBuffer) -> (r: Result<FrameGroup, ReadError>)
        ensures
            decoded(r) == value_of(
                group_record(old(file).data@, old(file).read_offset as int, old(file).endian),
            ),
            final(file).follows(
                *old(file),
                group_record(old(file).data@, old(file).read_offset as int, old(file).endian),
            ),
    {
        let start: usize = file.read_offset;
        if file.remaining() < 3 {
            return Err(ReadError::UnexpectedEnd);
        }
        let frame_count: u16 = field_u16(file);
        pass(file, 1);
        match read_row::<usize>(file, frame_count, ()) {
            Err(e) => {
                file.read_offset = start;
                Err(e)
            },
            Ok(frames) => {
                assert(frames.deep_view() =~= frames@);
                Ok(FrameGroup { frame_count, frames })
            },
        }
    }
}

impl Animation {
    /// The pose that the animation shows at the tick `timer`.
    pub fn pose_at(&self, timer: usize) -> (pose: usize)
        requires
            self.start <= self.end,
        ensures
            pose == pose_at_tick(self.start, self.end, timer),
            self.start <= pose,
            self.start < self.end ==> pose < self.end,
    {
        let first: usize = self.start as usize;
        let last: usize = self.end as usize;
        if first == last {
            first
        } else {
            first + timer % (last - first)
        }
    }

    /// Reads one animation record.
    pub fn read(file: &mut FileBuffer) -> (r: Result<Animation, ReadError>)
        ensures
            decoded(r) == value_of(
                animation_record(old(file).data@, old(file).read_offset as int, old(file).endian),
            ),
            final(file).follows(
                *old(file),
                animation_record(old(file).data@, old(file).read_offset as int, old(file).endian),
            ),
    {
        let start: usize = file.read_offset;
        match file.read_string_8() {
            Err(e) => Err(e),
            Ok(name) => {
                if file.remaining() < 4 {
                    file.read_offset = start;
                    return Err(ReadError::UnexpectedEnd);
                }
                let first: u16 = field_u16(file);
                let last: u16 = field_u16(file);
                Ok(Animation { name, start: first, end: last })
            },
        }
    }
}

/// A record that stands in rows in a container.
trait Record: Sized + DeepView {
    /// What the layout of the record depends on besides the byte order.
    type Shape;

    /// How the records of a row are laid out.
    spec fn items(shape: Self::Shape, endian: Endian) -> spec_fn(int, Seq<u8>, int) -> Field<
        <Self as DeepView>::V,
    >;

    /// Reads the record that stands at the place `index` of its row.
    fn read_in_row(file: &mut FileBuffer, index: u16, shape: &Self::Shape) -> (r: Result<
        Self,
        ReadError,
    >)
        ensures
            decoded(r) == value_of(
                Self::items(*shape, old(file).endian)(
                    index as int,
                    old(file).data@,
                    old(file).read_offset as int,
                ),
            ),
            final(file).follows(
                *old(file),
                Self::items(*shape, old(file).endian)(
                    index as int,
                    old(file).data@,
                    old(file).read_offset as int,
                ),
            ),
    ;
}

impl Record for Sprite {
    type Shape = ();

    spec fn items(shape: (), endian: Endian) -> spec_fn(int, Seq<u8>, int) -> Field<SpriteView> {
        sprite_items(endian)
    }

    fn read_in_row(file: &mut FileBuffer, index: u16, shape: &()) -> (r: Result<Sprite, ReadError>) {
        Sprite::read(file)
    }
}

impl Record for Layer {
    /// The data type of the container.
    type Shape = u8;

    spec fn items(shape: u8, endian: Endian) -> spec_fn(int, Seq<u8>, int) -> Field<Layer> {
        layer_items(endian, shape)
    }

    fn read_in_row(file: &mut FileBuffer, index: u16, shape: &u8) -> (r: Result<Layer, ReadError>) {
        Layer::read(file, index, *shape)
    }
}

/// The two layouts of a frame, each with the data type of the container.
#[derive(Clone, Copy)]
enum FrameShape {
    Layered(u8),
    Single(u8),
}

impl Record for Frame {
    type Shape = FrameShape;

    spec fn items(shape: FrameShape, endian: Endian) -> spec_fn(int, Seq<u8>, int) -> Field<
        FrameView,
    > {
        match shape {
            FrameShape::Layered(data_type) => layered_frame_items(endian, data_type),
            FrameShape::Single(data_type) => single_frame_items(endian, data_type),
        }
    }

    fn read_in_row(file: &mut FileBuffer, index: u16, shape: &FrameShape) -> (r: Result<
        Frame,
        ReadError,
    >) {
        match *shape {
            FrameShape::Layered(data_type) => Frame::read(file, data_type),
            FrameShape::Single(data_type) => Frame::read_single(file, data_type),
        }
    }
}

impl Record for usize {
    type Shape = ();

    spec fn items(shape: (), endian: Endian) -> spec_fn(int, Seq<u8>, int) -> Field<usize> {
        frame_index_items(endian)
    }

    fn read_in_row(file: &mut FileBuffer, index: u16, shape: &()) -> (r: Result<usize, ReadError>) {
        match file.read_uint_16() {
            Ok(frame) => Ok(frame as usize),
            Err(e) => Err(e),
        }
    }
}

impl Record for FrameGroup {
    type Shape = ();

    spec fn items(shape: (), endian: Endian) -> spec_fn(int, Seq<u8>, int) -> Field<
        FrameGroupView,
    > {
        group_items(endian)
    }

    fn read_in_row(file: &mut FileBuffer, index: u16, shape: &()) -> (r: Result<
        FrameGroup,
        ReadError,
    >) {
        FrameGroup::read(file)
    }
}

impl Record for Animation {
    type Shape = ();

    spec fn items(shape: (), endian: Endian) -> spec_fn(int, Seq<u8>, int) -> Field<
        AnimationView,
    > {
        animation_items(endian)
    }

    fn read_in_row(file: &mut FileBuffer, index: u16, shape: &()) -> (r: Result<
        Animation,
        ReadError,
    >) {
        Animation::read(file)
    }
}

/// Reads a row of `count` records. The first record that cannot be read
/// fails the row, and the cursor stays where the row began.
fn read_row<R: Record>(file: &mut FileBuffer, count: u16, shape: R::Shape) -> (r: Result<
    Vec<R>,
    ReadError,
>)
    ensures
        decoded(r) == value_of(
            repeat(
                R::items(shape, old(file).endian),
                old(file).data@,
                old(file).read_offset as int,
                count as nat,
            ),
        ),
        final(file).follows(
            *old(file),
            repeat(
                R::items(shape, old(file).endian),
                old(file).data@,
                old(file).read_offset as int,
                count as nat,
            ),
        ),
{
    let start: usize = file.read_offset;
    let ghost items = R::items(shape, file.endian);
    let ghost s = file.data@;
    let mut row: Vec<R> = Vec::new();
    assert(row.deep_view() =~= Seq::<<R as DeepView>::V>::empty());
    let mut i: u16 = 0;
    while i < count
        invariant
            i <= count,
            file.is_at(*old(file), file.read_offset as int),
            items == R::items(shape, file.endian),
            s == file.data@,
            start == old(file).read_offset,
            repeat(items, s, start as int, i as nat) == Field::<Seq<<R as DeepView>::V>>::Ok(
                (row.deep_view(), file.read_offset as int),
            ),
        decreases count - i,
    {
        let ghost front = row.deep_view();
        match R::read_in_row(file, i, &shape) {
            Err(e) => {
                proof {
                    assert(repeat(items, s, start as int, (i + 1) as nat) == Field::<
                        Seq<<R as DeepView>::V>,
                    >::Err(e));
                    lemma_repeat_stays_failed(items, s, start as int, (i + 1) as nat, count as nat);
                }
                file.read_offset = start;
                return Err(e);
            },
            Ok(record) => {
                let ghost last = record.deep_view();
                row.push(record);
                assert(row.deep_view() =~= front.push(last));
            },
        }
        i = i + 1;
    }
    Ok(row)
}

/// What stands before the sprite records of a container.
struct Header {
    format: u16,
    sprite_count: u16,
    data_type: u8,
    image_name: String,
}

impl DeepView for Header {
    type V = HeaderView;

    closed spec fn deep_view(&self) -> HeaderView {
        HeaderView {
            format: self.format,
            sprite_count: self.sprite_count,
            data_type: self.data_type,
            image_name: self.image_name@,
        }
    }
}

/// Reads the head of a container.
fn read_header(file: &mut FileBuffer) -> (r: Result<Header, ReadError>)
    ensures
        decoded(r) == value_of(
            header(old(file).data@, old(file).read_offset as int, old(file).endian),
        ),
        final(file).follows(
            *old(file),
            header(old(file).data@, old(file).read_offset as int, old(file).endian),
        ),
{
    let start: usize = file.read_offset;
    if file.remaining() < 2 {
        return Err(ReadError::UnexpectedEnd);
    }
    let format: u16 = field_u16(file);
    let dialect: Dialect = Dialect::from_tag(format);
    let reserved: usize = match dialect {
        Dialect::Padded => 3,
        Dialect::Grouped => 4,
        _ => 0,
    };
    if file.remaining() < reserved + 3 {
        file.read_offset = start;
        return Err(ReadError::UnexpectedEnd);
    }
    pass(file, reserved);
    let sprite_count: u16 = field_u16(file);
    let data_type: u8 = field_u8(file);
    match dialect {
        Dialect::LayeredNamed => match file.read_string_8() {
            Err(e) => {
                file.read_offset = start;
                Err(e)
            },
            Ok(image_name) => Ok(Header { format, sprite_count, data_type, image_name }),
        },
        _ => Ok(Header { format, sprite_count, data_type, image_name: String::new() }),
    }
}

/// The frames and the frame groups of a container.
struct Body {
    frames: Vec<Frame>,
    groups: Vec<FrameGroup>,
}

impl DeepView for Body {
    type V = (Seq<FrameView>, Seq<FrameGroupView>);

    closed spec fn deep_view(&self) -> (Seq<FrameView>, Seq<FrameGroupView>) {
        (self.frames.deep_view(), self.groups.deep_view())
    }
}

/// Reads the frame section of a layered dialect.
fn read_layered_body(file: &mut FileBuffer, data_type: u8) -> (r: Result<Vec<Frame>, ReadError>)
    ensures
        decoded(r) == value_of(
            layered_body(
                old(file).data@,
                old(file).read_offset as int,
                old(file).endian,
                data_type,
            ),
        ),
        final(file).follows(
            *old(file),
            layered_body(
                old(file).data@,
                old(file).read_offset as int,
                old(file).endian,
                data_type,
            ),
        ),
{
    let start: usize = file.read_offset;
    if file.remaining() < 2 {
        return Err(ReadError::UnexpectedEnd);
    }
    let frame_count: u16 = field_u16(file);
    match read_row::<Frame>(file, frame_count, FrameShape::Layered(data_type)) {
        Err(e) => {
            file.read_offset = start;
            Err(e)
        },
        Ok(frames) => Ok(frames),
    }
}

/// Reads the frame section of the grouped dialect.
fn read_grouped_body(file: &mut FileBuffer, data_type: u8) -> (r: Result<Body, ReadError>)
    ensures
        decoded(r) == value_of(
            grouped_body(
                old(file).data@,
                old(file).read_offset as int,
                old(file).endian,
                data_type,
            ),
        ),
        final(file).follows(
            *old(file),
            grouped_body(
                old(file).data@,
                old(file).read_offset as int,
                old(file).endian,
                data_type,
            ),
        ),
{
    let start: usize = file.read_offset;
    if file.remaining() < 4 {
        return Err(ReadError::UnexpectedEnd);
    }
    let group_count: u16 = field_u16(file);
    let frame_count: u16 = field_u16(file);
    match read_row::<Frame>(file, frame_count, FrameShape::Single(data_type)) {
        Err(e) => {
            file.read_offset = start;
            Err(e)
        },
        Ok(frames) => match read_row::<FrameGroup>(file, group_count, ()) {
            Err(e) => {
                file.read_offset = start;
                Err(e)
            },
            Ok(groups) => Ok(Body { frames, groups }),
        },
    }
}

/// Reads the frame section that `dialect` has.
fn read_body(file: &mut FileBuffer, dialect: Dialect, data_type: u8) -> (r: Result<Body, ReadError>)
    ensures
        decoded(r) == value_of(
            body(
                old(file).data@,
                old(file).read_offset as int,
                old(file).endian,
                dialect,
                data_type,
            ),
        ),
        final(file).follows(
            *old(file),
            body(
                old(file).data@,
                old(file).read_offset as int,
                old(file).endian,
                dialect,
                data_type,
            ),
        ),
{
    match dialect {
        Dialect::Layered | Dialect::LayeredNamed => match read_layered_body(file, data_type) {
            Err(e) => Err(e),
            Ok(frames) => {
                let groups: Vec<FrameGroup> = Vec::new();
                assert(groups.deep_view() =~= Seq::<FrameGroupView>::empty());
                Ok(Body { frames, groups })
            },
        },
        Dialect::Grouped => read_grouped_body(file, data_type),
        _ => {
            let frames: Vec<Frame> = Vec::new();
            let groups: Vec<FrameGroup> = Vec::new();
            assert(frames.deep_view() =~= Seq::<FrameView>::empty());
            assert(groups.deep_view() =~= Seq::<FrameGroupView>::empty());
            Ok(Body { frames, groups })
        },
    }
}

/// Reads the animation section of a container.
fn read_animation_section(file: &mut FileBuffer) -> (r: Result<Vec<Animation>, ReadError>)
    ensures
        decoded(r) == value_of(
            animation_section(old(file).data@, old(file).read_offset as int, old(file).endian),
        ),
        final(file).follows(
            *old(file),
            animation_section(old(file).data@, old(file).read_offset as int, old(file).endian),
        ),
{
    let start: usize = file.read_offset;
    if file.remaining() < 2 {
        return Err(ReadError::UnexpectedEnd);
    }
    let count: u16 = field_u16(file);
    match read_row::<Animation>(file, count, ()) {
        Err(e) => {
            file.read_offset = start;
            Err(e)
        },
        Ok(animations) => Ok(animations),
    }
}

/// A BSV3 container: the file it is read from and, once `parse` has
/// succeeded, what the file holds.
#[derive(Debug)]
pub struct BSV3 {
    pub file: FileBuffer,
    /// The tag that selects the dialect.
    pub format: u16,
    /// 1 where each layer has an alpha byte.
    pub data_type: u8,
    /// The name of the texture file, where the container gives one.
    pub image_name: String,
    pub sprites: Vec<Sprite>,
    pub frames: Vec<Frame>,
    pub groups: Vec<FrameGroup>,
    pub animations: Vec<Animation>,
}

impl View for BSV3 {
    type V = DocumentView;

    open spec fn view(&self) -> DocumentView {
        DocumentView {
            format: self.format,
            data_type: self.data_type,
            image_name: self.image_name@,
            sprites: self.sprites.deep_view(),
            frames: self.frames.deep_view(),
            groups: self.groups.deep_view(),
            animations: self.animations.deep_view(),
        }
    }
}

impl BSV3 {
    /// An empty container that will be read from the little-endian file
    /// `name` with the contents `data`.
    pub fn new(name: String, data: Vec<u8>) -> (container: BSV3)
        ensures
            container.file.folder@ == path_folder(name@),
            container.file.name@ == path_name(name@),
            container.file.data == data,
            container.file.read_offset == 0,
            container.file.endian == Endian::Little,
            container.format == 0,
            container.data_type == 0,
            container.image_name@.len() == 0,
            container.sprites@.len() == 0,
            container.frames@.len() == 0,
            container.groups@.len() == 0,
            container.animations@.len() == 0,
            well_formed(container@),
    {
        proof {
            assert(encode_utf8(Seq::<char>::empty()) =~= Seq::<u8>::empty());
        }
        BSV3 {
            file: FileBuffer::new(name, data),
            format: 0,
            data_type: 0,
            image_name: String::new(),
            sprites: Vec::new(),
            frames: Vec::new(),
            groups: Vec::new(),
            animations: Vec::new(),
        }
    }

    /// The path of the texture file that goes with the container.
    pub fn texture_path(&self) -> (path: String)
        ensures
            path@ == texture_path_of(self.file.folder@, self.file.name@, self.image_name@),
    {
        proof {
            reveal_strlit(".rgb");
        }
        let mut path: String = self.file.folder.clone();
        if self.image_name.as_str().is_empty() {
            path.append(self.file.name.as_str());
            path.append(".rgb");
            assert(".rgb"@ =~= texture_suffix());
        } else {
            path.append(self.image_name.as_str());
        }
        path
    }

    /// Whether every frame index of every group names a frame of the
    /// container. Reading a container does not look into this.
    pub fn group_indices_valid(&self) -> (valid: bool)
        ensures
            valid == group_indices_in_range(self@),
    {
        let frames: usize = self.frames.len();
        let mut g: usize = 0;
        while g < self.groups.len()
            invariant
                g <= self.groups.len(),
                frames == self@.frames.len(),
                forall|h: int|
                    0 <= h < g ==> all_below((#[trigger] self@.groups[h]).frames, frames as nat),
            decreases self.groups.len() - g,
        {
            let group: &FrameGroup = &self.groups[g];
            assert(self@.groups[g as int].frames == group.frames@);
            let mut i: usize = 0;
            while i < group.frames.len()
                invariant
                    i <= group.frames.len(),
                    g < self.groups.len(),
                    frames == self@.frames.len(),
                    self@.groups[g as int].frames == group.frames@,
                    forall|j: int| 0 <= j < i ==> (#[trigger] group.frames@[j]) < frames,
                decreases group.frames.len() - i,
            {
                if group.frames[i] >= frames {
                    assert(group.frames@[i as int] >= frames);
                    assert(!all_below(self@.groups[g as int].frames, frames as nat));
                    return false;
                }
                i = i + 1;
            }
            assert(all_below(self@.groups[g as int].frames, frames as nat));
            g = g + 1;
        }
        true
    }

    /// The frames that make up the pose `pose`, in the order in which they
    /// are drawn, or `None` where the pose or one of its frames does not
    /// exist.
    pub fn pose_frames(&self, pose: usize) -> (frames: Option<Vec<usize>>)
        ensures
            match frames_of_pose(self@, pose as int) {
                Some(expected) => frames is Some && frames->Some_0@ == expected,
                None => frames is None,
            },
    {
        let mut drawn: Vec<usize> = Vec::new();
        match Dialect::from_tag(self.format) {
            Dialect::Grouped => {
                if pose >= self.groups.len() {
                    return None;
                }
                let group: &FrameGroup = &self.groups[pose];
                assert(self@.groups[pose as int].frames == group.frames@);
                let mut i: usize = group.frames.len();
                while i > 0
                    invariant
                        i <= group.frames.len(),
                        pose < self.groups.len(),
                        dialect_of(self.format) == Dialect::Grouped,
                        self@.groups[pose as int].frames == group.frames@,
                        self@.frames.len() == self.frames.len(),
                        drawn.len() == group.frames.len() - i,
                        forall|k: int|
                            0 <= k < drawn.len() ==> drawn[k] == group.frames[group.frames.len() - 1
                                - k],
                        forall|k: int|
                            i <= k < group.frames.len() ==> (#[trigger] group.frames@[k])
                                < self.frames.len(),
                    decreases i,
                {
                    i = i - 1;
                    let index: usize = group.frames[i];
                    if index >= self.frames.len() {
                        assert(!all_below(group.frames@, self.frames.len() as nat));
                        return None;
                    }
                    drawn.push(index);
                }
                assert(drawn@ =~= group.frames@.reverse());
                Some(drawn)
            },
            _ => {
                if pose >= self.frames.len() {
                    return None;
                }
                drawn.push(pose);
                assert(drawn@ =~= seq![pose]);
                Some(drawn)
            },
        }
    }

    /// Reads the container at the offset of `self.file` and keeps what it
    /// holds in `self`, in place of what was there.
    ///
    /// Either all of it is read or nothing changes: on an error `self` is
    /// as before, the offset too. Bytes behind the last animation are not
    /// looked at.
    pub fn parse(&mut self) -> (r: Result<(), ReadError>)
        ensures
            match document(
                old(self).file.data@,
                old(self).file.read_offset as int,
                old(self).file.endian,
            ) {
                Ok((content, end)) => r is Ok && final(self)@ == content && final(self).file.is_at(
                    old(self).file,
                    end,
                ),
                Err(e) => r == Err::<(), ReadError>(e) && *final(self) == *old(self),
            },
            r is Ok ==> well_formed(final(self)@),
    {
        proof {
            if document(self.file.data@, self.file.read_offset as int, self.file.endian) is Ok {
                lemma_document_well_formed(
                    self.file.data@,
                    self.file.read_offset as int,
                    self.file.endian,
                );
            }
        }
        let start: usize = self.file.read_offset;
        let head: Header = match read_header(&mut self.file) {
            Ok(head) => head,
            Err(e) => {
                return Err(e);
            },
        };
        let sprites: Vec<Sprite> = match read_row::<Sprite>(&mut self.file, head.sprite_count, ()) {
            Ok(sprites) => sprites,
            Err(e) => {
                self.file.read_offset = start;
                return Err(e);
            },
        };
        let dialect: Dialect = Dialect::from_tag(head.format);
        let content: Body = match read_body(&mut self.file, dialect, head.data_type) {
            Ok(content) => content,
            Err(e) => {
                self.file.read_offset = start;
                return Err(e);
            },
        };
        let animations: Vec<Animation> = match read_animation_section(&mut self.file) {
            Ok(animations) => animations,
            Err(e) => {
                self.file.read_offset = start;
                return Err(e);
            },
        };
        self.format = head.format;
        self.data_type = head.data_type;
        self.image_name = head.image_name;
        self.sprites = sprites;
        self.frames = content.frames;
        self.groups = content.groups;
        self.animations = animations;
        Ok(())
    }
}

} // verus!

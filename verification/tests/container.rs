use tsto_bsv3::ea::bsv3::{Animation, Dialect, Frame, FrameGroup, Layer, Sprite, BSV3};
use tsto_bsv3::ea::file_buffer::{Endian, FileBuffer, ReadError};

fn name(text: &str) -> Vec<u8> {
    let mut out = vec![text.len() as u8];
    out.extend_from_slice(text.as_bytes());
    out
}

fn sprite(text: &str, x: u16, y: u16, w: u16, h: u16) -> Vec<u8> {
    let mut out = name(text);
    for v in [x, y, w, h] {
        out.extend_from_slice(&v.to_le_bytes());
    }
    out
}

/// sprite index, then x, y, x scale, vertical skew, horizontal skew, y scale
fn layer(index: u16, placement: [f32; 6], alpha: Option<u8>) -> Vec<u8> {
    let mut out = index.to_le_bytes().to_vec();
    for v in placement {
        out.extend_from_slice(&v.to_le_bytes());
    }
    if let Some(a) = alpha {
        out.push(a);
    }
    out
}

fn animation(text: &str, start: u16, end: u16) -> Vec<u8> {
    let mut out = name(text);
    out.extend_from_slice(&start.to_le_bytes());
    out.extend_from_slice(&end.to_le_bytes());
    out
}

fn container(data: Vec<u8>) -> BSV3 {
    BSV3::new(String::from("assets/unit.bsv3"), data)
}

fn layered_stream(format: u16, data_type: u8) -> Vec<u8> {
    let alpha = |a: u8| if data_type == 1 { Some(a) } else { None };
    let mut s = format.to_le_bytes().to_vec();
    s.extend_from_slice(&2u16.to_le_bytes());
    s.push(data_type);
    if format == 0x0203 {
        s.extend(name("atlas.rgb"));
    }
    s.extend(sprite("body", 1, 2, 30, 40));
    s.extend(sprite("head", 31, 2, 0, 0));
    s.extend_from_slice(&2u16.to_le_bytes());
    // frame 0: three layers
    s.extend_from_slice(&3u16.to_le_bytes());
    s.push(0xEE);
    s.extend(layer(0, [1.0, 2.0, 3.0, 4.0, 5.0, 6.0], alpha(10)));
    s.extend(layer(1, [-1.5, 0.0, 1.0, 0.0, 0.0, 1.0], alpha(20)));
    s.extend(layer(0, [0.5, 0.25, -1.0, 0.125, -0.125, 2.0], alpha(0)));
    // frame 1: no layers
    s.extend_from_slice(&0u16.to_le_bytes());
    s.push(0);
    s.extend_from_slice(&2u16.to_le_bytes());
    s.extend(animation("idle", 0, 0));
    s.extend(animation("walk", 0, 2));
    s
}

fn grouped_stream(data_type: u8) -> Vec<u8> {
    let alpha = |a: u8| if data_type == 1 { Some(a) } else { None };
    let mut s = 0x0303u16.to_le_bytes().to_vec();
    s.extend_from_slice(&7.5f32.to_le_bytes());
    s.extend_from_slice(&1u16.to_le_bytes());
    s.push(data_type);
    s.extend(sprite("tile", 0, 0, 8, 8));
    s.extend_from_slice(&2u16.to_le_bytes()); // groups
    s.extend_from_slice(&3u16.to_le_bytes()); // frames
    s.extend(layer(0, [1.0, 0.0, 1.0, 0.0, 0.0, 1.0], alpha(100)));
    s.extend(layer(0, [2.0, 0.0, 1.0, 0.0, 0.0, 1.0], alpha(150)));
    s.extend(layer(0, [3.0, 0.0, 1.0, 0.0, 0.0, 1.0], alpha(200)));
    s.extend_from_slice(&3u16.to_le_bytes());
    s.push(0x55);
    for index in [2u16, 0, 1] {
        s.extend_from_slice(&index.to_le_bytes());
    }
    s.extend_from_slice(&0u16.to_le_bytes());
    s.push(0);
    s.extend_from_slice(&1u16.to_le_bytes());
    s.extend(animation("spin", 0, 2));
    s
}

fn floats(l: &Layer) -> [f32; 6] {
    [
        f32::from_bits(l.x),
        f32::from_bits(l.y),
        f32::from_bits(l.scale_x),
        f32::from_bits(l.skew_v),
        f32::from_bits(l.skew_h),
        f32::from_bits(l.scale_y),
    ]
}

#[test]
fn new_container_is_empty() {
    let c = container(vec![1, 2, 3]);
    assert_eq!(c.file.name, "unit");
    assert_eq!(c.file.folder, "assets/");
    assert_eq!(c.file.data, vec![1, 2, 3]);
    assert_eq!(c.file.read_offset, 0);
    assert_eq!(c.file.endian, Endian::Little);
    assert_eq!(c.format, 0);
    assert_eq!(c.data_type, 0);
    assert_eq!(c.image_name, "");
    assert!(c.sprites.is_empty() && c.frames.is_empty());
    assert!(c.groups.is_empty() && c.animations.is_empty());
}

#[test]
fn end_to_end_example() {
    let mut data = vec![0x03, 0x01, 0x01, 0x00, 0x01, 0x04];
    data.extend_from_slice(b"NAME");
    data.extend_from_slice(&[0x00, 0x00, 0x00, 0x00, 0x10, 0x00, 0x10, 0x00, 0x00, 0x00, 0x00, 0x00]);
    let mut c = container(data);
    assert_eq!(c.parse(), Ok(()));
    assert_eq!(c.format, 0x0103);
    assert_eq!(c.data_type, 1);
    assert_eq!(c.sprites.len(), 1);
    assert_eq!(c.sprites[0].name, "NAME");
    assert_eq!((c.sprites[0].x, c.sprites[0].y), (0, 0));
    assert_eq!((c.sprites[0].width, c.sprites[0].height), (16, 16));
    assert_eq!(c.frames.len(), 0);
    assert_eq!(c.groups.len(), 0);
    assert_eq!(c.animations.len(), 0);
    assert_eq!(c.file.read_offset, 22);
}

#[test]
fn layered_container_gives_back_every_field() {
    let mut c = container(layered_stream(0x0103, 1));
    assert_eq!(c.parse(), Ok(()));
    assert_eq!(c.format, 0x0103);
    assert_eq!(c.data_type, 1);
    assert_eq!(c.image_name, "");
    assert_eq!(c.sprites.len(), 2);
    assert_eq!(c.sprites[0].name, "body");
    assert_eq!((c.sprites[0].x, c.sprites[0].y, c.sprites[0].width, c.sprites[0].height), (1, 2, 30, 40));
    assert_eq!(c.sprites[1].name, "head");
    assert_eq!((c.sprites[1].x, c.sprites[1].y), (31, 2));
    assert_eq!(c.frames.len(), 2);
    assert_eq!(c.frames[0].layer_count, 3);
    assert_eq!(c.frames[0].layers.len(), 3);
    assert_eq!(c.frames[1].layer_count, 0);
    assert!(c.frames[1].layers.is_empty());
    // the layer that the file holds first stands last
    let stored = &c.frames[0].layers;
    assert_eq!((stored[2].id, stored[2].sprite, stored[2].alpha), (0, 0, 10));
    assert_eq!(floats(&stored[2]), [1.0, 2.0, 3.0, 4.0, 5.0, 6.0]);
    assert_eq!(f32::from_bits(stored[2].skew_v), 4.0);
    assert_eq!(f32::from_bits(stored[2].skew_h), 5.0);
    assert_eq!((stored[1].id, stored[1].sprite, stored[1].alpha), (1, 1, 20));
    assert_eq!(floats(&stored[1]), [-1.5, 0.0, 1.0, 0.0, 0.0, 1.0]);
    assert_eq!((stored[0].id, stored[0].sprite, stored[0].alpha), (2, 0, 0));
    assert_eq!(floats(&stored[0]), [0.5, 0.25, -1.0, 0.125, -0.125, 2.0]);
    assert!(c.groups.is_empty());
    assert_eq!(c.animations.len(), 2);
    assert_eq!(c.animations[0].name, "idle");
    assert_eq!((c.animations[0].start, c.animations[0].end), (0, 0));
    assert_eq!(c.animations[1].name, "walk");
    assert_eq!((c.animations[1].start, c.animations[1].end), (0, 2));
    assert_eq!(c.file.read_offset, c.file.data.len());
}

#[test]
fn named_dialect_reads_the_texture_name() {
    let mut c = container(layered_stream(0x0203, 1));
    assert_eq!(c.parse(), Ok(()));
    assert_eq!(c.format, 0x0203);
    assert_eq!(c.image_name, "atlas.rgb");
    assert_eq!(c.sprites.len(), 2);
    assert_eq!(c.sprites[0].name, "body");
    assert_eq!(c.frames.len(), 2);
    assert_eq!(c.frames[0].layers[2].alpha, 10);
    assert_eq!(c.animations[1].name, "walk");
    assert_eq!(c.file.read_offset, c.file.data.len());
}

#[test]
fn padded_dialect_skips_three_bytes_and_has_no_frames() {
    let mut s = vec![0x04, 0x01, 0xAA, 0xBB, 0xCC];
    s.extend_from_slice(&1u16.to_le_bytes());
    s.push(0);
    s.extend(sprite("s", 5, 6, 7, 8));
    s.extend_from_slice(&1u16.to_le_bytes());
    s.extend(animation("a", 3, 4));
    let mut c = container(s);
    assert_eq!(c.parse(), Ok(()));
    assert_eq!(c.format, 0x0104);
    assert_eq!(c.data_type, 0);
    assert_eq!(c.sprites.len(), 1);
    assert_eq!((c.sprites[0].x, c.sprites[0].y, c.sprites[0].width, c.sprites[0].height), (5, 6, 7, 8));
    assert!(c.frames.is_empty() && c.groups.is_empty());
    assert_eq!(c.animations.len(), 1);
    assert_eq!(c.animations[0].name, "a");
    assert_eq!((c.animations[0].start, c.animations[0].end), (3, 4));
    assert_eq!(c.file.read_offset, c.file.data.len());
}

#[test]
fn grouped_container_gives_back_every_field() {
    let mut c = container(grouped_stream(1));
    assert_eq!(c.parse(), Ok(()));
    assert_eq!(c.format, 0x0303);
    assert_eq!(c.data_type, 1);
    assert_eq!(c.sprites.len(), 1);
    assert_eq!(c.sprites[0].name, "tile");
    assert_eq!(c.frames.len(), 3);
    for (i, frame) in c.frames.iter().enumerate() {
        assert_eq!(frame.layer_count, 1);
        assert_eq!(frame.layers.len(), 1);
        assert_eq!(frame.layers[0].id, 0);
        assert_eq!(frame.layers[0].sprite, 0);
        assert_eq!(f32::from_bits(frame.layers[0].x), (i + 1) as f32);
        assert_eq!(frame.layers[0].alpha, [100, 150, 200][i]);
    }
    assert_eq!(c.groups.len(), 2);
    assert_eq!(c.groups[0].frame_count, 3);
    assert_eq!(c.groups[0].frames, vec![2, 0, 1]);
    assert_eq!(c.groups[1].frame_count, 0);
    assert!(c.groups[1].frames.is_empty());
    for group in c.groups.iter() {
        for index in group.frames.iter() {
            assert!(*index < c.frames.len());
        }
    }
    assert_eq!(c.animations.len(), 1);
    assert_eq!(c.animations[0].name, "spin");
    assert_eq!(c.file.read_offset, c.file.data.len());
}

#[test]
fn unknown_dialect_has_no_frame_section() {
    let mut s = vec![0x99, 0x09];
    s.extend_from_slice(&1u16.to_le_bytes());
    s.push(1);
    s.extend(sprite("only", 1, 1, 1, 1));
    s.extend_from_slice(&1u16.to_le_bytes());
    s.extend(animation("x", 9, 9));
    let mut c = container(s);
    assert_eq!(c.parse(), Ok(()));
    assert_eq!(c.format, 0x0999);
    assert_eq!(c.sprites.len(), 1);
    assert!(c.frames.is_empty() && c.groups.is_empty());
    assert_eq!(c.animations.len(), 1);
    assert_eq!((c.animations[0].start, c.animations[0].end), (9, 9));
}

#[test]
fn sprite_sizes_are_at_least_one() {
    let mut c = container(layered_stream(0x0103, 0));
    assert_eq!(c.parse(), Ok(()));
    assert_eq!((c.sprites[1].width, c.sprites[1].height), (1, 1));
    for s in c.sprites.iter() {
        assert!(s.width >= 1 && s.height >= 1);
    }
    let mut f = FileBuffer::new(String::from("x"), sprite("z", 9, 9, 0, 5));
    let s = Sprite::read(&mut f).unwrap();
    assert_eq!((s.width, s.height), (1, 5));
}

#[test]
fn layer_ids_run_down_in_stored_order() {
    let mut s = 0x0103u16.to_le_bytes().to_vec();
    s.extend_from_slice(&0u16.to_le_bytes());
    s.push(0);
    s.extend_from_slice(&1u16.to_le_bytes());
    s.extend_from_slice(&5u16.to_le_bytes());
    s.push(0);
    for i in 0..5u16 {
        s.extend(layer(10 + i, [i as f32, 0.0, 0.0, 0.0, 0.0, 0.0], None));
    }
    s.extend_from_slice(&0u16.to_le_bytes());
    let mut c = container(s);
    assert_eq!(c.parse(), Ok(()));
    let layers = &c.frames[0].layers;
    let ids: Vec<u16> = layers.iter().map(|l| l.id).collect();
    assert_eq!(ids, vec![4, 3, 2, 1, 0]);
    let sprites: Vec<u16> = layers.iter().map(|l| l.sprite).collect();
    assert_eq!(sprites, vec![14, 13, 12, 11, 10]);
    for l in layers.iter() {
        assert_eq!(f32::from_bits(l.x), l.id as f32);
    }
}

#[test]
fn alpha_is_255_unless_stored() {
    let mut c = container(layered_stream(0x0103, 0));
    assert_eq!(c.parse(), Ok(()));
    for frame in c.frames.iter() {
        for l in frame.layers.iter() {
            assert_eq!(l.alpha, 255);
        }
    }
    let mut c = container(layered_stream(0x0203, 2));
    assert_eq!(c.parse(), Ok(()));
    assert_eq!(c.frames[0].layers[0].alpha, 255);
    assert_eq!(c.animations.len(), 2);
    let mut c = container(grouped_stream(0));
    assert_eq!(c.parse(), Ok(()));
    assert_eq!(c.frames.len(), 3);
    for frame in c.frames.iter() {
        assert_eq!(frame.layers[0].alpha, 255);
    }
    assert_eq!(c.groups[0].frames, vec![2, 0, 1]);
}

#[test]
fn stored_alpha_takes_every_value() {
    for a in [0u8, 1, 127, 254, 255] {
        let mut f = FileBuffer::new(String::from("x"), layer(3, [0.0; 6], Some(a)));
        let l = Layer::read(&mut f, 7, 1).unwrap();
        assert_eq!((l.id, l.sprite, l.alpha), (7, 3, a));
        assert_eq!(f.read_offset, 27);
    }
    let mut f = FileBuffer::new(String::from("x"), layer(3, [0.0; 6], Some(9)));
    let l = Layer::read(&mut f, 0, 0).unwrap();
    assert_eq!(l.alpha, 255);
    assert_eq!(f.read_offset, 26);
}

#[test]
fn truncated_container_reports_the_end_at_every_cut() {
    for stream in [
        layered_stream(0x0103, 1),
        layered_stream(0x0203, 0),
        grouped_stream(1),
        grouped_stream(0),
    ] {
        for cut in 0..stream.len() {
            let mut c = container(stream[..cut].to_vec());
            assert_eq!(c.parse(), Err(ReadError::UnexpectedEnd), "cut at {}", cut);
            assert!(c.sprites.is_empty() && c.frames.is_empty());
            assert!(c.groups.is_empty() && c.animations.is_empty());
            assert_eq!(c.format, 0);
            assert_eq!(c.file.read_offset, 0);
        }
        let mut c = container(stream);
        assert_eq!(c.parse(), Ok(()));
    }
}

#[test]
fn container_cut_inside_a_sprite_record() {
    let mut s = 0x0103u16.to_le_bytes().to_vec();
    s.extend_from_slice(&2u16.to_le_bytes());
    s.push(1);
    s.extend(sprite("whole", 1, 2, 3, 4));
    s.extend_from_slice(&[4, b'h', b'a']);
    let mut c = container(s);
    assert_eq!(c.parse(), Err(ReadError::UnexpectedEnd));
    assert!(c.sprites.is_empty());
    assert_eq!(c.file.read_offset, 0);
}

#[test]
fn trailing_bytes_are_not_looked_at() {
    let stream = layered_stream(0x0103, 1);
    let end = stream.len();
    let mut longer = stream.clone();
    longer.extend_from_slice(&[0xFF, 0xFE, 0xFD]);
    let mut c = container(longer);
    assert_eq!(c.parse(), Ok(()));
    assert_eq!(c.file.read_offset, end);
    assert_eq!(c.animations.len(), 2);
    assert_eq!(c.file.read_remaining(), vec![0xFF, 0xFE, 0xFD]);
}

#[test]
fn bad_text_in_a_name_is_reported() {
    let mut s = 0x0103u16.to_le_bytes().to_vec();
    s.extend_from_slice(&1u16.to_le_bytes());
    s.push(1);
    s.extend_from_slice(&[2, 0xC3, 0x28]);
    s.extend_from_slice(&[0; 12]);
    let mut c = container(s);
    assert_eq!(c.parse(), Err(ReadError::InvalidUtf8));
    assert!(c.sprites.is_empty());
    assert_eq!(c.file.read_offset, 0);
}

#[test]
fn failed_parse_keeps_what_was_there() {
    let mut c = container(layered_stream(0x0103, 1));
    assert_eq!(c.parse(), Ok(()));
    let end = c.file.read_offset;
    assert_eq!(c.parse(), Err(ReadError::UnexpectedEnd));
    assert_eq!(c.file.read_offset, end);
    assert_eq!(c.format, 0x0103);
    assert_eq!(c.sprites.len(), 2);
    assert_eq!(c.frames.len(), 2);
    assert_eq!(c.animations.len(), 2);
}

#[test]
fn parse_replaces_what_was_there() {
    let mut twice = layered_stream(0x0203, 1);
    twice.extend(grouped_stream(0));
    let mut c = container(twice);
    assert_eq!(c.parse(), Ok(()));
    assert_eq!(c.image_name, "atlas.rgb");
    assert_eq!(c.sprites.len(), 2);
    assert_eq!(c.parse(), Ok(()));
    assert_eq!(c.format, 0x0303);
    assert_eq!(c.image_name, "");
    assert_eq!(c.sprites.len(), 1);
    assert_eq!(c.frames.len(), 3);
    assert_eq!(c.groups.len(), 2);
    assert_eq!(c.animations.len(), 1);
    assert_eq!(c.file.read_offset, c.file.data.len());
}

#[test]
fn parse_starts_at_the_offset() {
    let mut s = vec![0xDE, 0xAD, 0xBE];
    s.extend(layered_stream(0x0103, 0));
    let mut c = container(s);
    c.file.seek(3);
    assert_eq!(c.parse(), Ok(()));
    assert_eq!(c.format, 0x0103);
    assert_eq!(c.sprites[0].name, "body");
}

#[test]
fn big_endian_container() {
    let mut s = vec![0x01, 0x03, 0x00, 0x01, 0x01];
    s.extend(name("b"));
    for v in [0x0102u16, 0x0304, 0x0506, 0x0708] {
        s.extend_from_slice(&v.to_be_bytes());
    }
    s.extend_from_slice(&1u16.to_be_bytes());
    s.extend_from_slice(&1u16.to_be_bytes());
    s.push(0);
    s.extend_from_slice(&0x0A0Bu16.to_be_bytes());
    for v in [1.0f32, 2.0, 3.0, 4.0, 5.0, 6.0] {
        s.extend_from_slice(&v.to_be_bytes());
    }
    s.push(77);
    s.extend_from_slice(&0u16.to_be_bytes());
    let mut c = container(s);
    c.file.endian = Endian::Big;
    assert_eq!(c.parse(), Ok(()));
    assert_eq!(c.format, 0x0103);
    assert_eq!((c.sprites[0].x, c.sprites[0].y), (0x0102, 0x0304));
    assert_eq!((c.sprites[0].width, c.sprites[0].height), (0x0506, 0x0708));
    assert_eq!(c.frames[0].layers[0].sprite, 0x0A0B);
    assert_eq!(floats(&c.frames[0].layers[0]), [1.0, 2.0, 3.0, 4.0, 5.0, 6.0]);
    assert_eq!(c.frames[0].layers[0].alpha, 77);
}

#[test]
fn dialects_by_tag() {
    assert_eq!(Dialect::from_tag(0x0103), Dialect::Layered);
    assert_eq!(Dialect::from_tag(0x0203), Dialect::LayeredNamed);
    assert_eq!(Dialect::from_tag(0x0104), Dialect::Padded);
    assert_eq!(Dialect::from_tag(0x0303), Dialect::Grouped);
    assert_eq!(Dialect::from_tag(0), Dialect::Other);
    assert_eq!(Dialect::from_tag(0x0301), Dialect::Other);
}

#[test]
fn records_read_one_by_one() {
    let mut f = FileBuffer::new(String::from("x"), animation("run", 4, 9));
    let a = Animation::read(&mut f).unwrap();
    assert_eq!((a.name.as_str(), a.start, a.end), ("run", 4, 9));
    assert_eq!(f.read_offset, 8);

    let mut g = vec![2, 0, 0xAB, 7, 0, 0xFF, 0xFF];
    let mut f = FileBuffer::new(String::from("x"), g.clone());
    let group = FrameGroup::read(&mut f).unwrap();
    assert_eq!(group.frame_count, 2);
    assert_eq!(group.frames, vec![7, 0xFFFF]);
    g.pop();
    let mut f = FileBuffer::new(String::from("x"), g);
    assert!(matches!(FrameGroup::read(&mut f), Err(ReadError::UnexpectedEnd)));
    assert_eq!(f.read_offset, 0);

    let mut data = vec![1, 0, 0];
    data.extend(layer(2, [0.0; 6], None));
    let mut f = FileBuffer::new(String::from("x"), data.clone());
    let frame = Frame::read(&mut f, 0).unwrap();
    assert_eq!((frame.layer_count, frame.layers.len()), (1, 1));
    assert_eq!(frame.layers[0].sprite, 2);
    let mut f = FileBuffer::new(String::from("x"), data);
    assert!(matches!(Frame::read(&mut f, 1), Err(ReadError::UnexpectedEnd)));
    assert_eq!(f.read_offset, 0);

    let mut f = FileBuffer::new(String::from("x"), layer(6, [0.0; 6], Some(1)));
    let frame = Frame::read_single(&mut f, 1).unwrap();
    assert_eq!((frame.layer_count, frame.layers[0].id, frame.layers[0].alpha), (1, 0, 1));

    let mut f = FileBuffer::new(String::from("x"), vec![3, b'a', b'b', b'c', 1, 0, 2, 0, 3, 0, 4]);
    assert!(matches!(Sprite::read(&mut f), Err(ReadError::UnexpectedEnd)));
    assert_eq!(f.read_offset, 0);
    let mut f = FileBuffer::new(String::from("x"), vec![1, b'a', 1, 0, 2]);
    assert!(matches!(Animation::read(&mut f), Err(ReadError::UnexpectedEnd)));
    assert_eq!(f.read_offset, 0);
}

#[test]
fn pose_of_an_animation_cycles() {
    let still = Animation { name: String::from("s"), start: 5, end: 5 };
    assert_eq!(still.pose_at(0), 5);
    assert_eq!(still.pose_at(123), 5);
    let walk = Animation { name: String::from("w"), start: 2, end: 6 };
    let poses: Vec<usize> = (0..9).map(|t| walk.pose_at(t)).collect();
    assert_eq!(poses, vec![2, 3, 4, 5, 2, 3, 4, 5, 2]);
    assert_eq!(walk.pose_at(usize::MAX), 2 + usize::MAX % 4);
}

#[test]
fn frames_of_a_pose() {
    let mut c = container(layered_stream(0x0103, 1));
    assert_eq!(c.parse(), Ok(()));
    assert_eq!(c.pose_frames(0), Some(vec![0]));
    assert_eq!(c.pose_frames(1), Some(vec![1]));
    assert_eq!(c.pose_frames(2), None);
    let mut c = container(grouped_stream(1));
    assert_eq!(c.parse(), Ok(()));
    assert_eq!(c.pose_frames(0), Some(vec![1, 0, 2]));
    assert_eq!(c.pose_frames(1), Some(vec![]));
    assert_eq!(c.pose_frames(2), None);
}

#[test]
fn group_index_without_a_frame_is_kept_and_found() {
    let mut s = 0x0303u16.to_le_bytes().to_vec();
    s.extend_from_slice(&[0, 0, 0, 0]);
    s.extend_from_slice(&0u16.to_le_bytes());
    s.push(0);
    s.extend_from_slice(&1u16.to_le_bytes());
    s.extend_from_slice(&1u16.to_le_bytes());
    s.extend(layer(0, [0.0; 6], None));
    s.extend_from_slice(&[2, 0, 0, 0, 0, 5, 0]);
    s.extend_from_slice(&0u16.to_le_bytes());
    let mut c = container(s);
    assert_eq!(c.parse(), Ok(()));
    assert_eq!(c.frames.len(), 1);
    assert_eq!(c.groups[0].frames, vec![0, 5]);
    assert_eq!(c.pose_frames(0), None);
}

#[test]
fn group_indices_are_checked_on_request() {
    let mut c = container(grouped_stream(1));
    assert_eq!(c.parse(), Ok(()));
    assert!(c.group_indices_valid());
    c.groups[1].frames.push(3);
    assert!(!c.group_indices_valid());
    assert_eq!(c.pose_frames(0), Some(vec![1, 0, 2]));
    assert_eq!(c.pose_frames(1), None);
    let mut c = container(layered_stream(0x0103, 1));
    assert_eq!(c.parse(), Ok(()));
    assert!(c.group_indices_valid());
}

#[test]
fn texture_path_by_name_or_default() {
    let mut c = container(layered_stream(0x0103, 1));
    assert_eq!(c.parse(), Ok(()));
    assert_eq!(c.texture_path(), "assets/unit.rgb");
    let mut c = container(layered_stream(0x0203, 1));
    assert_eq!(c.parse(), Ok(()));
    assert_eq!(c.texture_path(), "assets/atlas.rgb");
    let c = BSV3::new(String::from("C:\\data\\hero.bsv3"), vec![]);
    assert_eq!(c.texture_path(), "C:/data/hero.rgb");
}

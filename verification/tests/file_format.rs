use divoom_ditoo::divoom_file_format::animation::{Animation, GifError};
use divoom_ditoo::divoom_file_format::frame::{bits_per_pixel, EncodeError, Frame};
use divoom_ditoo::divoom_file_format::frame_header::{DecodeError, FrameHeader, FRAME_HEADER_MAGIC_NUMBER};
use divoom_ditoo::divoom_file_format::get_palette_from_images;
use divoom_ditoo::divoom_file_format::gif::GifFrame;
use divoom_ditoo::divoom_file_format::picture::{Image, Rgb, Rgba};

fn rgb(red: u8, green: u8, blue: u8) -> Rgb {
    Rgb { red, green, blue }
}

fn opaque(c: Rgb) -> Rgba {
    Rgba { red: c.red, green: c.green, blue: c.blue, alpha: 255 }
}

fn image_from(palette: &[Rgb], index_of: impl Fn(usize) -> usize) -> Image {
    Image { width: 16, height: 16, pixels: (0..256).map(|i| opaque(palette[index_of(i)])).collect() }
}

fn first_frame(palette: Vec<Rgb>, time: u16, index_of: impl Fn(usize) -> usize) -> Frame {
    let image = image_from(&palette, index_of);
    Frame {
        header: FrameHeader { time_in_milliseconds: time, reuse_palette: false, color_count: palette.len() as u8 },
        local_palette: palette.clone(),
        palette,
        image,
    }
}

#[test]
fn bits_per_pixel_values() {
    let expected = [(0u32, 0u8), (1, 0), (2, 1), (3, 2), (4, 2), (5, 3), (8, 3), (9, 4), (255, 8), (256, 8), (257, 9), (u32::MAX, 32)];
    for (count, bits) in expected {
        assert_eq!(bits_per_pixel(count), bits, "count {}", count);
    }
}

#[test]
fn header_read() {
    let bytes = [FRAME_HEADER_MAGIC_NUMBER, 0x50, 0x00, 0x7f, 0x01, 0x01, 0x03, 0xee];
    assert_eq!(
        FrameHeader::from_reader(&bytes),
        Ok(FrameHeader { time_in_milliseconds: 0x017f, reuse_palette: true, color_count: 3 })
    );
    assert_eq!(FrameHeader::from_reader(&bytes[..6]), Err(DecodeError::UnexpectedEndOfInput));
    let mut bad = bytes;
    bad[0] = 0xab;
    assert_eq!(FrameHeader::from_reader(&bad), Err(DecodeError::BadMagicNumber(0xab)));
    // A short input is an end of input, whatever its first byte.
    assert_eq!(FrameHeader::from_reader(&bad[..3]), Err(DecodeError::UnexpectedEndOfInput));
}

#[test]
fn frame_bytes_and_read_back() {
    let palette = vec![rgb(255, 0, 0), rgb(0, 255, 0), rgb(0, 0, 255)];
    let frame = first_frame(palette.clone(), 127, |i| i % 3);
    let mut out = vec![0x42];
    frame.serialize(&palette, &mut out).unwrap();
    let bytes = &out[1..];
    // 3 colours take 2 bits a pixel: 64 bytes of pixel data.
    assert_eq!(bytes.len(), 7 + 9 + 64);
    assert_eq!(&bytes[..7], &[0xaa, 80, 0, 127, 0, 0, 3]);
    assert_eq!(&bytes[7..16], &[255, 0, 0, 0, 255, 0, 0, 0, 255]);
    // pixels 0, 1, 2, 0 are indices 0, 1, 2, 0: 0b00_10_01_00
    assert_eq!(bytes[16], 0b0010_0100);
    let (read, consumed) = Frame::from_16x16(bytes, &[]).unwrap();
    assert_eq!(consumed, bytes.len());
    assert_eq!(read.header, frame.header);
    assert_eq!(read.palette, palette);
    assert_eq!(read.local_palette, palette);
    assert_eq!(read.image.width, 16);
    assert_eq!(read.image.height, 16);
    assert_eq!(read.image.pixels, frame.image.pixels);
}

#[test]
fn one_colour_frame_has_no_pixel_data() {
    let palette = vec![rgb(1, 2, 3)];
    let frame = first_frame(palette.clone(), 5, |_| 0);
    let mut out = Vec::new();
    frame.serialize(&palette, &mut out).unwrap();
    assert_eq!(out, vec![0xaa, 10, 0, 5, 0, 0, 1, 1, 2, 3]);
    let (read, consumed) = Frame::from_16x16(&out, &[]).unwrap();
    assert_eq!(consumed, 10);
    assert_eq!(read.image.pixels, frame.image.pixels);
}

#[test]
fn serialize_errors() {
    let palette = vec![rgb(255, 0, 0), rgb(0, 255, 0)];
    let frame = first_frame(palette.clone(), 100, |i| i % 2);
    let mut out = vec![9];
    assert_eq!(frame.serialize(&palette[..1], &mut out), Err(EncodeError::PixelNotInPalette));
    assert_eq!(out, vec![9]);
    let mut big: Vec<Rgb> = palette.clone();
    big.extend((0..300u32).map(|i| rgb(1, (i / 256) as u8, (i % 256) as u8)));
    assert_eq!(frame.serialize(&big, &mut out), Err(EncodeError::ExcessiveBitsPerPixel));
    assert_eq!(out, vec![9]);
    assert_eq!(frame.serialize(&[], &mut out), Err(EncodeError::PixelNotInPalette));
}

#[test]
fn animation_write_then_read() {
    let palette = vec![rgb(10, 20, 30), rgb(40, 50, 60)];
    let first = first_frame(palette.clone(), 127, |i| (i / 16) % 2);
    let mut full = palette.clone();
    full.push(rgb(70, 80, 90));
    let second_image = image_from(&full, |i| i % 3);
    let second = Frame {
        header: FrameHeader { time_in_milliseconds: 300, reuse_palette: true, color_count: 1 },
        palette: full.clone(),
        local_palette: vec![rgb(70, 80, 90)],
        image: second_image,
    };
    let animation = Animation { frames: vec![first, second] };
    let mut out = Vec::new();
    animation.save_to_divoom_format(&mut out).unwrap();
    // 7 + 6 + 32 bytes, then 7 + 3 + 64 bytes
    assert_eq!(out.len(), 45 + 74);
    let read = Animation::from_16x16(&out).unwrap();
    assert_eq!(read.frames.len(), 2);
    for (a, b) in read.frames.iter().zip(animation.frames.iter()) {
        assert_eq!(a.header, b.header);
        assert_eq!(a.palette, b.palette);
        assert_eq!(a.local_palette, b.local_palette);
        assert_eq!(a.image.pixels, b.image.pixels);
    }
    // A cut-off last frame ends the animation.
    let cut = Animation::from_16x16(&out[..out.len() - 1]).unwrap();
    assert_eq!(cut.frames.len(), 1);
    assert_eq!(Animation::from_16x16(&[]).unwrap().frames.len(), 0);
}

#[test]
fn animation_bad_magic() {
    let palette = vec![rgb(10, 20, 30)];
    let frame = first_frame(palette.clone(), 1, |_| 0);
    let mut out = Vec::new();
    frame.serialize(&palette, &mut out).unwrap();
    out.extend_from_slice(&[0x12, 0, 0, 0, 0, 0, 0]);
    assert!(matches!(Animation::from_16x16(&out), Err(DecodeError::BadMagicNumber(0x12))));
}

#[test]
fn palette_over_256_colours_ends_reading() {
    let mut bytes = vec![0xaa, 0, 0, 1, 0, 0, 200];
    for i in 0..200u32 {
        bytes.extend_from_slice(&[i as u8, 0, 0]);
    }
    bytes.extend(std::iter::repeat(7u8).take(256));
    let first_len = bytes.len();
    // reuses 200 colours and adds 100: 300 colours, 9 bits a pixel
    bytes.extend_from_slice(&[0xaa, 0, 0, 2, 0, 1, 100]);
    for i in 0..100u32 {
        bytes.extend_from_slice(&[i as u8, 1, 0]);
    }
    let (_, consumed) = Frame::from_16x16(&bytes, &[]).unwrap();
    assert_eq!(consumed, first_len);
    let previous: Vec<Rgb> = (0..200u32).map(|i| rgb(i as u8, 0, 0)).collect();
    assert_eq!(
        Frame::from_16x16(&bytes[first_len..], &previous).err(),
        Some(DecodeError::ExcessiveBitsPerPixel { consumed: 307 })
    );
    // the animation fails there, even with a good frame after it
    bytes.extend_from_slice(&[0xaa, 0, 0, 3, 0, 0, 1, 5, 6, 7]);
    assert_eq!(
        Animation::from_16x16(&bytes).err(),
        Some(DecodeError::ExcessiveBitsPerPixel { consumed: 307 })
    );
    // the frames before it read as usual
    let animation = Animation::from_16x16(&bytes[..first_len]).unwrap();
    assert_eq!(animation.frames.len(), 1);
    assert_eq!(animation.frames[0].image.pixels[0], opaque(rgb(7, 0, 0)));
}

#[test]
fn pixel_outside_palette() {
    // 3 colours, 2 bits a pixel; index 3 names no colour
    let mut bytes = vec![0xaa, 0, 0, 1, 0, 0, 3, 1, 1, 1, 2, 2, 2, 3, 3, 3];
    bytes.extend(std::iter::repeat(0b1111_1111u8).take(64));
    assert!(Animation::from_16x16_checked(&bytes).is_none());
    assert!(Frame::from_16x16_checked(&bytes, &[]).is_none());
    bytes[16] = 0b0010_0100;
    assert!(Frame::from_16x16_checked(&bytes, &[]).is_none());
    for b in bytes[16..].iter_mut() {
        *b = 0b1001_0010;
    }
    assert!(matches!(Frame::from_16x16_checked(&bytes, &[]), Some(Ok((_, 80)))));
    // a truncated pixel block ends reading before any bad index is met
    let mut short = vec![0xaa, 0, 0, 1, 0, 0, 3, 1, 1, 1, 2, 2, 2, 3, 3, 3];
    short.extend(std::iter::repeat(0u8).take(10));
    assert!(matches!(Animation::from_16x16_checked(&short), Some(Ok(a)) if a.frames.is_empty()));
    // an empty palette names no colour either
    let empty = vec![0xaa, 0, 0, 1, 0, 0, 0];
    assert!(Animation::from_16x16_checked(&empty).is_none());
}

#[test]
fn palette_of_images_in_first_appearance_order() {
    let a = Image {
        width: 2,
        height: 1,
        pixels: vec![opaque(rgb(3, 3, 3)), Rgba { red: 1, green: 1, blue: 1, alpha: 0 }],
    };
    let b = Image { width: 1, height: 2, pixels: vec![opaque(rgb(1, 1, 1)), opaque(rgb(2, 2, 2))] };
    let set = get_palette_from_images(&[a, b]);
    let colors: Vec<(u8, u8, u8)> = set.into_iter().collect();
    assert_eq!(colors, vec![(3, 3, 3), (1, 1, 1), (2, 2, 2)]);
}

fn gif_frame(colors: &[(u8, u8, u8)], delay: (u32, u32)) -> GifFrame {
    let mut rgba = Vec::new();
    for i in 0..256 {
        let c = colors[i % colors.len()];
        rgba.extend_from_slice(&[c.0, c.1, c.2, 255]);
    }
    GifFrame { width: 16, height: 16, rgba, delay_numer: delay.0, delay_denom: delay.1 }
}

#[test]
fn animation_from_gif_frames() {
    let frames = vec![
        gif_frame(&[(9, 9, 9), (1, 2, 3)], (120, 1)),
        gif_frame(&[(4, 5, 6), (9, 9, 9)], (250, 2)),
        gif_frame(&[(1, 2, 3)], (0, 0)),
        gif_frame(&[(1, 2, 3)], (5, 0)),
        gif_frame(&[(1, 2, 3)], (100000, 1)),
    ];
    let animation = Animation::from_gif_frames(frames).unwrap();
    let palette = vec![rgb(9, 9, 9), rgb(1, 2, 3), rgb(4, 5, 6)];
    assert_eq!(animation.frames.len(), 5);
    let times: Vec<u16> = animation.frames.iter().map(|f| f.header.time_in_milliseconds).collect();
    assert_eq!(times, vec![120, 125, 0, 65535, 65535]);
    assert_eq!(animation.frames[0].header, FrameHeader { time_in_milliseconds: 120, reuse_palette: false, color_count: 3 });
    assert_eq!(animation.frames[0].local_palette, palette);
    for frame in &animation.frames[1..] {
        assert!(frame.header.reuse_palette);
        assert_eq!(frame.header.color_count, 0);
        assert!(frame.local_palette.is_empty());
    }
    for frame in &animation.frames {
        assert_eq!(frame.palette, palette);
    }
    assert_eq!(animation.frames[1].image.pixels[1], opaque(rgb(9, 9, 9)));
    // and it goes through the Divoom format unchanged
    let mut out = Vec::new();
    animation.save_to_divoom_format(&mut out).unwrap();
    let read = Animation::from_16x16(&out).unwrap();
    assert_eq!(read.frames.len(), 5);
    for (a, b) in read.frames.iter().zip(animation.frames.iter()) {
        assert_eq!(a.header, b.header);
        assert_eq!(a.palette, b.palette);
        assert_eq!(a.image.pixels, b.image.pixels);
    }
}

#[test]
fn gif_with_256_colours_refused() {
    let colors: Vec<(u8, u8, u8)> = (0..256u32).map(|i| (i as u8, 0, 0)).collect();
    assert!(matches!(
        Animation::from_gif_frames(vec![gif_frame(&colors, (10, 1))]),
        Err(GifError::TooManyColors(256))
    ));
    let fewer: Vec<(u8, u8, u8)> = (0..255u32).map(|i| (i as u8, 0, 0)).collect();
    assert!(Animation::from_gif_frames(vec![gif_frame(&fewer, (10, 1))]).is_ok());
}

#[test]
fn gif_written_and_read_back() {
    let palette = vec![rgb(255, 0, 0), rgb(0, 0, 255), rgb(0, 255, 0)];
    let first = first_frame(palette.clone(), 127, |i| i % 3);
    let second = Frame {
        header: FrameHeader { time_in_milliseconds: 500, reuse_palette: true, color_count: 0 },
        palette: palette.clone(),
        local_palette: Vec::new(),
        image: image_from(&palette, |i| (i / 16) % 3),
    };
    let animation = Animation { frames: vec![first, second] };
    let mut out = Vec::new();
    animation.save_to_gif(&mut out).unwrap();
    assert_eq!(&out[..6], b"GIF89a");
    let read = Animation::from_gif(&out).unwrap();
    assert_eq!(read.frames.len(), 2);
    // GIF keeps centiseconds: 127 ms come back as 120 ms.
    assert_eq!(read.frames[0].header.time_in_milliseconds, 120);
    assert_eq!(read.frames[1].header.time_in_milliseconds, 500);
    assert_eq!(read.frames[0].image.pixels, animation.frames[0].image.pixels);
    assert_eq!(read.frames[1].image.pixels, animation.frames[1].image.pixels);
}

#[test]
fn gif_decode_failure() {
    assert!(matches!(Animation::from_gif(b"not a gif"), Err(GifError::Decode(_))));
}

#[test]
fn divoom_file_read_and_written_again() {
    let palette = vec![rgb(10, 20, 30), rgb(40, 50, 60), rgb(1, 1, 1)];
    let first = first_frame(palette.clone(), 250, |i| (i * 7) % 3);
    let mut full = palette.clone();
    full.extend_from_slice(&[rgb(70, 80, 90), rgb(5, 6, 7)]);
    let second = Frame {
        header: FrameHeader { time_in_milliseconds: 1000, reuse_palette: true, color_count: 2 },
        palette: full.clone(),
        local_palette: vec![rgb(70, 80, 90), rgb(5, 6, 7)],
        image: image_from(&full, |i| i % 5),
    };
    let mut bytes = Vec::new();
    Animation { frames: vec![first, second] }.save_to_divoom_format(&mut bytes).unwrap();
    let read = Animation::from_16x16(&bytes).unwrap();
    let mut again = Vec::new();
    read.save_to_divoom_format(&mut again).unwrap();
    assert_eq!(again, bytes);
}

#[test]
fn frame_pixel_data_written_again() {
    // Pixel data as stored: 2 bits a pixel, indices 2, 1, 0, 2 in every byte.
    let mut bytes = vec![FRAME_HEADER_MAGIC_NUMBER, 80, 0, 40, 0, 0, 3, 9, 9, 9, 8, 8, 8, 7, 7, 7];
    bytes.extend_from_slice(&[0b1000_0110u8; 64]);
    let (frame, consumed) = Frame::from_16x16(&bytes, &[]).unwrap();
    assert_eq!(consumed, bytes.len());
    assert_eq!(frame.image.pixels[0], opaque(rgb(7, 7, 7)));
    assert_eq!(frame.image.pixels[1], opaque(rgb(8, 8, 8)));
    let mut out = Vec::new();
    frame.serialize(&frame.palette, &mut out).unwrap();
    assert_eq!(out, bytes);
}

#[test]
fn gif_frames_with_transparent_pixels() {
    let colors = [(200u8, 100u8, 50u8), (0, 0, 0), (10, 20, 30)];
    let mut rgba = Vec::new();
    for i in 0..256usize {
        let c = colors[i % 3];
        let alpha = if i % 2 == 0 { 0 } else { 128 };
        rgba.extend_from_slice(&[c.0, c.1, c.2, alpha]);
    }
    let frames = vec![GifFrame { width: 16, height: 16, rgba, delay_numer: 100, delay_denom: 1 }];
    let animation = Animation::from_gif_frames(frames).unwrap();
    let mut out = Vec::new();
    animation.save_to_divoom_format(&mut out).unwrap();
    let read = Animation::from_16x16(&out).unwrap();
    assert_eq!(read.frames.len(), 1);
    assert_eq!(read.frames[0].palette, vec![rgb(200, 100, 50), rgb(0, 0, 0), rgb(10, 20, 30)]);
    for i in 0..256usize {
        let c = colors[i % 3];
        assert_eq!(read.frames[0].image.pixels[i], opaque(rgb(c.0, c.1, c.2)));
    }
}

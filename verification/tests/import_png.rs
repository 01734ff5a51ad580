use raylib::raytracer::compositor::{ColorRGBA, Surface};
use raylib::util::import::from_png;
use raylib::util::import::png_image::{
    announces_too_much, holds_bad_chunk, surface_from_frame, Frame, PngError, MAX_PIXELS,
};

fn encode(width: u32, height: u32, color: png::ColorType, depth: png::BitDepth, samples: &[u8]) -> Vec<u8> {
    let mut bytes = Vec::new();
    {
        let mut encoder = png::Encoder::new(&mut bytes, width, height);
        encoder.set_color(color);
        encoder.set_depth(depth);
        let mut writer = encoder.write_header().unwrap();
        writer.write_image_data(samples).unwrap();
    }
    bytes
}

fn rgb(r: u8, g: u8, b: u8) -> ColorRGBA {
    ColorRGBA { r, g, b, a: 255 }
}

#[test]
fn grey_image_becomes_equal_channels() {
    let file = encode(2, 2, png::ColorType::Grayscale, png::BitDepth::Eight, &[0, 10, 200, 255]);
    let surface = from_png(&file).unwrap();
    assert_eq!(
        surface,
        Surface { width: 2, height: 2, buffer: vec![rgb(0, 0, 0), rgb(10, 10, 10), rgb(200, 200, 200), rgb(255, 255, 255)] }
    );
}

#[test]
fn grey_alpha_image_keeps_its_alpha() {
    let file = encode(2, 1, png::ColorType::GrayscaleAlpha, png::BitDepth::Eight, &[7, 100, 9, 0]);
    let surface = from_png(&file).unwrap();
    assert_eq!(
        surface.buffer,
        vec![ColorRGBA { r: 7, g: 7, b: 7, a: 100 }, ColorRGBA { r: 9, g: 9, b: 9, a: 0 }]
    );
    assert_eq!((surface.width, surface.height), (2, 1));
}

#[test]
fn rgb_image_becomes_opaque_pixels() {
    let file = encode(1, 3, png::ColorType::Rgb, png::BitDepth::Eight, &[1, 2, 3, 4, 5, 6, 7, 8, 9]);
    let surface = from_png(&file).unwrap();
    assert_eq!(surface.buffer, vec![rgb(1, 2, 3), rgb(4, 5, 6), rgb(7, 8, 9)]);
    assert_eq!((surface.width, surface.height), (1, 3));
}

#[test]
fn rgba_image_is_taken_as_it_is() {
    let file = encode(2, 1, png::ColorType::Rgba, png::BitDepth::Eight, &[1, 2, 3, 4, 5, 6, 7, 8]);
    let surface = from_png(&file).unwrap();
    assert_eq!(
        surface.buffer,
        vec![ColorRGBA { r: 1, g: 2, b: 3, a: 4 }, ColorRGBA { r: 5, g: 6, b: 7, a: 8 }]
    );
}

#[test]
fn sixteen_bit_samples_are_brought_to_eight() {
    let file = encode(1, 1, png::ColorType::Rgb, png::BitDepth::Sixteen, &[0x12, 0x34, 0x56, 0x78, 0x9A, 0xBC]);
    let surface = from_png(&file).unwrap();
    assert_eq!(surface.buffer, vec![rgb(0x12, 0x56, 0x9A)]);
}

#[test]
fn one_bit_grey_is_brought_to_eight() {
    let file = encode(4, 1, png::ColorType::Grayscale, png::BitDepth::One, &[0b1010_0000]);
    let surface = from_png(&file).unwrap();
    assert_eq!(surface.buffer, vec![rgb(255, 255, 255), rgb(0, 0, 0), rgb(255, 255, 255), rgb(0, 0, 0)]);
}

#[test]
fn bytes_that_are_no_png_are_refused() {
    assert!(matches!(from_png(b""), Err(PngError::Malformed(_))));
    assert!(matches!(from_png(b"P3 1 1 255\n0 0 0 "), Err(PngError::Malformed(_))));
    let mut file = encode(2, 2, png::ColorType::Rgb, png::BitDepth::Eight, &[0; 12]);
    file.truncate(40);
    assert!(matches!(from_png(&file), Err(PngError::Malformed(_))));
    match from_png(b"not a png") {
        Err(PngError::Malformed(text)) => assert!(!text.is_empty()),
        other => panic!("{:?}", other),
    }
}

fn crc(bytes: &[u8]) -> u32 {
    let mut c = 0xFFFF_FFFFu32;
    for b in bytes {
        c ^= *b as u32;
        for _ in 0..8 {
            c = if c & 1 == 1 { (c >> 1) ^ 0xEDB8_8320 } else { c >> 1 };
        }
    }
    !c
}

fn chunk(kind: &[u8; 4], data: &[u8]) -> Vec<u8> {
    let mut out = (data.len() as u32).to_be_bytes().to_vec();
    out.extend_from_slice(kind);
    out.extend_from_slice(data);
    let mut summed = kind.to_vec();
    summed.extend_from_slice(data);
    out.extend_from_slice(&crc(&summed).to_be_bytes());
    out
}

fn header(width: u32, height: u32, depth: u8, color: u8) -> Vec<u8> {
    let mut data = width.to_be_bytes().to_vec();
    data.extend_from_slice(&height.to_be_bytes());
    data.extend_from_slice(&[depth, color, 0, 0, 0]);
    chunk(b"IHDR", &data)
}

fn stored(raw: &[u8]) -> Vec<u8> {
    let (mut a, mut b) = (1u32, 0u32);
    for x in raw {
        a = (a + *x as u32) % 65521;
        b = (b + a) % 65521;
    }
    let mut out = vec![0x78, 0x01, 0x01];
    out.extend_from_slice(&(raw.len() as u16).to_le_bytes());
    out.extend_from_slice(&(!(raw.len() as u16)).to_le_bytes());
    out.extend_from_slice(raw);
    out.extend_from_slice(&((b << 16) | a).to_be_bytes());
    out
}

fn file(chunks: &[Vec<u8>]) -> Vec<u8> {
    let mut out = vec![137, 80, 78, 71, 13, 10, 26, 10];
    for c in chunks {
        out.extend_from_slice(c);
    }
    out
}

fn indexed(palette: &[u8]) -> Vec<u8> {
    file(&[header(1, 1, 8, 3), chunk(b"PLTE", palette), chunk(b"IDAT", &stored(&[0, 0])), chunk(b"IEND", &[])])
}

fn decoder_says(bytes: &[u8]) -> String {
    let mut decoder = png::Decoder::new(bytes);
    decoder.set_transformations(png::Transformations::normalize_to_color8());
    decoder.set_ignore_text_chunk(true);
    decoder.set_ignore_iccp_chunk(true);
    match decoder.read_info() {
        Err(e) => e.to_string(),
        Ok(mut reader) => {
            let mut buffer = vec![0u8; reader.output_buffer_size()];
            reader.next_frame(&mut buffer).unwrap_err().to_string()
        }
    }
}

#[test]
fn palette_image_is_expanded() {
    let surface = from_png(&indexed(&[9, 8, 7])).unwrap();
    assert_eq!(surface, Surface { width: 1, height: 1, buffer: vec![rgb(9, 8, 7)] });
    let mut palette = vec![0u8; 768];
    palette[0..3].copy_from_slice(&[1, 2, 3]);
    assert_eq!(from_png(&indexed(&palette)).unwrap().buffer, vec![rgb(1, 2, 3)]);
    let with_alpha = file(&[
        header(2, 1, 8, 3),
        chunk(b"PLTE", &[1, 2, 3, 4, 5, 6]),
        chunk(b"tRNS", &[10]),
        chunk(b"IDAT", &stored(&[0, 1, 0])),
        chunk(b"IEND", &[]),
    ]);
    assert_eq!(
        from_png(&with_alpha).unwrap().buffer,
        vec![ColorRGBA { r: 4, g: 5, b: 6, a: 255 }, ColorRGBA { r: 1, g: 2, b: 3, a: 10 }]
    );
}

#[test]
fn palette_of_a_wrong_length_is_refused() {
    for length in [1usize, 2, 4, 5, 7, 767, 769, 770, 771, 1000, 4096] {
        let bytes = indexed(&vec![0u8; length]);
        assert!(holds_bad_chunk(&bytes), "{}", length);
        assert_eq!(from_png(&bytes), Err(PngError::BadChunk), "{}", length);
    }
    for length in [3usize, 6, 765, 768] {
        assert!(!holds_bad_chunk(&indexed(&vec![0u8; length])), "{}", length);
    }
    let late = file(&[
        header(1, 1, 8, 2),
        chunk(b"IDAT", &stored(&[0, 1, 2, 3])),
        chunk(b"PLTE", &[0; 4]),
        chunk(b"IEND", &[]),
    ]);
    assert_eq!(from_png(&late), Err(PngError::BadChunk));
    assert!(!holds_bad_chunk(b"PLTE with no signature before it"));
    assert!(!holds_bad_chunk(b""));
}

#[test]
fn animation_that_announces_too_many_frames_is_refused() {
    let mut control = u32::MAX.to_be_bytes().to_vec();
    control.extend_from_slice(&[0; 4]);
    let bytes = file(&[
        header(1, 1, 8, 0),
        chunk(b"acTL", &control),
        chunk(b"IDAT", &stored(&[0, 7])),
        chunk(b"IEND", &[]),
    ]);
    assert_eq!(from_png(&bytes), Err(PngError::BadChunk));
    let mut control = 3u32.to_be_bytes().to_vec();
    control.extend_from_slice(&[0; 4]);
    let bytes = file(&[
        header(1, 1, 8, 0),
        chunk(b"acTL", &control),
        chunk(b"IDAT", &stored(&[0, 7])),
        chunk(b"IEND", &[]),
    ]);
    assert_eq!(from_png(&bytes).unwrap().buffer, vec![rgb(7, 7, 7)]);
}

#[test]
fn image_that_announces_too_many_pixels_is_refused() {
    let huge = file(&[header(65535, 65535, 8, 6), chunk(b"IDAT", &stored(&[0])), chunk(b"IEND", &[])]);
    assert!(announces_too_much(&huge));
    assert_eq!(from_png(&huge), Err(PngError::TooLarge));
    let side = 1u32 << 14;
    assert_eq!((side as u64) * ((side as u64) / 2), MAX_PIXELS);
    let at_the_limit = file(&[header(side, side / 2, 8, 0)]);
    assert!(!announces_too_much(&at_the_limit));
    let above = file(&[header(side, side / 2 + 1, 8, 0)]);
    assert!(announces_too_much(&above));
    assert_eq!(from_png(&above), Err(PngError::TooLarge));
    assert!(!announces_too_much(b"no image at all"));
    assert!(!announces_too_much(&file(&[])));
}

#[test]
fn refusal_of_the_decoder_is_passed_on_as_it_is() {
    let mut cut = encode(2, 2, png::ColorType::Rgb, png::BitDepth::Eight, &[0; 12]);
    cut.truncate(40);
    let mut wrong_sum = encode(1, 1, png::ColorType::Grayscale, png::BitDepth::Eight, &[5]);
    let last = wrong_sum.len() - 1;
    wrong_sum[last] ^= 1;
    wrong_sum[30] ^= 1;
    let no_palette = file(&[header(1, 1, 8, 3), chunk(b"IDAT", &stored(&[0, 0])), chunk(b"IEND", &[])]);
    let no_data = file(&[header(1, 1, 8, 0), chunk(b"IEND", &[])]);
    let zero_wide = file(&[header(0, 1, 8, 0), chunk(b"IEND", &[])]);
    for bytes in [b"".to_vec(), b"not a png".to_vec(), cut, wrong_sum, no_palette, no_data, zero_wide] {
        match from_png(&bytes) {
            Err(PngError::Malformed(text)) => {
                assert!(!text.is_empty());
                assert_eq!(text, decoder_says(&bytes));
            }
            other => panic!("{:?}", other),
        }
    }
}

#[test]
fn frame_of_another_format_is_unsupported() {
    let frame = Frame { width: 1, height: 1, color_type: 3, bit_depth: 8, bytes: vec![0] };
    assert_eq!(surface_from_frame(&frame), Err(PngError::Unsupported { color_type: 3, bit_depth: 8 }));
    let frame = Frame { width: 1, height: 1, color_type: 2, bit_depth: 16, bytes: vec![0; 6] };
    assert_eq!(surface_from_frame(&frame), Err(PngError::Unsupported { color_type: 2, bit_depth: 16 }));
    let frame = Frame { width: 1, height: 1, color_type: 0, bit_depth: 1, bytes: vec![0] };
    assert_eq!(surface_from_frame(&frame), Err(PngError::Unsupported { color_type: 0, bit_depth: 1 }));
}

#[test]
fn frame_of_the_wrong_length_is_refused() {
    let frame = Frame { width: 2, height: 2, color_type: 2, bit_depth: 8, bytes: vec![0; 11] };
    assert_eq!(surface_from_frame(&frame), Err(PngError::SizeMismatch));
    let frame = Frame { width: 2, height: 2, color_type: 6, bit_depth: 8, bytes: vec![0; 12] };
    assert_eq!(surface_from_frame(&frame), Err(PngError::SizeMismatch));
    let frame = Frame { width: u32::MAX, height: u32::MAX, color_type: 6, bit_depth: 8, bytes: vec![] };
    assert_eq!(surface_from_frame(&frame), Err(PngError::SizeMismatch));
    let frame = Frame { width: 0, height: 5, color_type: 0, bit_depth: 8, bytes: vec![] };
    assert_eq!(surface_from_frame(&frame), Ok(Surface { width: 0, height: 5, buffer: vec![] }));
}

#[test]
fn frame_becomes_a_surface_row_by_row() {
    let frame = Frame { width: 2, height: 2, color_type: 4, bit_depth: 8, bytes: vec![1, 2, 3, 4, 5, 6, 7, 8] };
    let surface = surface_from_frame(&frame).unwrap();
    assert_eq!(surface.get(1, 0), ColorRGBA { r: 3, g: 3, b: 3, a: 4 });
    assert_eq!(surface.get(0, 1), ColorRGBA { r: 5, g: 5, b: 5, a: 6 });
    assert_eq!(surface.get(1, 1), ColorRGBA { r: 7, g: 7, b: 7, a: 8 });
}

#[test]
fn text_and_colour_profile_are_passed_over() {
    let plain = file(&[header(1, 1, 8, 0), chunk(b"IDAT", &stored(&[0, 7])), chunk(b"IEND", &[])]);
    let with_text = file(&[
        header(1, 1, 8, 0),
        chunk(b"tEXt", b"Title\0a grey dot"),
        chunk(b"zTXt", b"broken"),
        chunk(b"iCCP", b"broken too"),
        chunk(b"gAMA", &[0, 0, 0xB1, 0x8F]),
        chunk(b"IDAT", &stored(&[0, 7])),
        chunk(b"IEND", &[]),
    ]);
    assert_eq!(from_png(&plain).unwrap().buffer, vec![rgb(7, 7, 7)]);
    assert_eq!(from_png(&with_text), from_png(&plain));
}

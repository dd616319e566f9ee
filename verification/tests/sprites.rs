use image::{ExtendedColorType, ImageEncoder};

use retro_aio::canvas::decode_sprite;
use retro_aio::png::is_readable;

fn crc(data: &[u8]) -> u32 {
    let mut c = u32::MAX;
    for byte in data {
        c ^= *byte as u32;
        for _ in 0..8 {
            c = if c & 1 == 1 { c >> 1 ^ 0xedb8_8320 } else { c >> 1 };
        }
    }
    !c
}

fn chunk(kind: &[u8; 4], data: &[u8]) -> Vec<u8> {
    let mut named = kind.to_vec();
    named.extend_from_slice(data);
    let mut v = (data.len() as u32).to_be_bytes().to_vec();
    v.extend_from_slice(&named);
    v.extend_from_slice(&crc(&named).to_be_bytes());
    v
}

/// A zlib stream of one stored block.
fn stored(data: &[u8]) -> Vec<u8> {
    let len = data.len() as u16;
    let mut v = vec![0x78, 0x01, 1];
    v.extend_from_slice(&len.to_le_bytes());
    v.extend_from_slice(&(!len).to_le_bytes());
    v.extend_from_slice(data);
    let (mut a, mut b) = (1u32, 0u32);
    for byte in data {
        a = (a + *byte as u32) % 65521;
        b = (b + a) % 65521;
    }
    v.extend_from_slice(&(b << 16 | a).to_be_bytes());
    v
}

/// A PNG of one row of two pixels, eight bits per sample.
fn two_pixels(color_type: u8, before: &[Vec<u8>], row: &[u8], after: &[Vec<u8>]) -> Vec<u8> {
    let mut file = b"\x89PNG\r\n\x1a\n".to_vec();
    file.extend(chunk(b"IHDR", &[0, 0, 0, 2, 0, 0, 0, 1, 8, color_type, 0, 0, 0]));
    for c in before {
        file.extend_from_slice(c);
    }
    let mut data = vec![0];
    data.extend_from_slice(row);
    file.extend(chunk(b"IDAT", &stored(&data)));
    for c in after {
        file.extend_from_slice(c);
    }
    file.extend(chunk(b"IEND", &[]));
    file
}

#[test]
fn indexed_sprites_take_their_colors_from_the_palette() {
    let file = two_pixels(3, &[chunk(b"PLTE", &[1, 2, 3, 200, 100, 50])], &[1, 0], &[]);
    assert!(is_readable(&file));
    let sprite = decode_sprite(&file).unwrap();
    assert_eq!((sprite.width, sprite.height), (2, 1));
    assert_eq!(sprite.px, vec![[200, 100, 50, 255], [1, 2, 3, 255]]);
}

#[test]
fn a_palette_that_ends_in_part_of_a_color_is_refused() {
    for len in [4usize, 5, 7, 767] {
        let palette = chunk(b"PLTE", &vec![9; len]);
        let text = chunk(b"tEXt", b"Title\0mascot");
        let file = two_pixels(3, &[text, palette], &[0, 0], &[]);
        assert!(!is_readable(&file), "{len}");
        assert!(decode_sprite(&file).is_none(), "{len}");
    }
    let file = two_pixels(3, &[chunk(b"PLTE", &[9; 768])], &[255, 0], &[]);
    assert_eq!(decode_sprite(&file).unwrap().px, vec![[9, 9, 9, 255]; 2]);
}

#[test]
fn only_the_palette_of_an_indexed_image_matters() {
    let part = chunk(b"PLTE", &[9, 9, 9, 9]);
    let rgb = two_pixels(2, &[part.clone()], &[1, 2, 3, 4, 5, 6], &[]);
    assert!(is_readable(&rgb));
    assert_eq!(decode_sprite(&rgb).unwrap().px, vec![[1, 2, 3, 255], [4, 5, 6, 255]]);

    let whole = chunk(b"PLTE", &[7, 8, 9]);
    let late = two_pixels(3, &[whole], &[0, 0], &[part]);
    assert!(is_readable(&late));
    assert_eq!(decode_sprite(&late).unwrap().px, vec![[7, 8, 9, 255]; 2]);
}

#[test]
fn grey_and_deep_sprites_become_rgba() {
    let grey = two_pixels(0, &[], &[17, 255], &[]);
    assert_eq!(decode_sprite(&grey).unwrap().px, vec![[17, 17, 17, 255], [255; 4]]);
    let grey_alpha = two_pixels(4, &[], &[17, 0, 90, 128], &[]);
    assert_eq!(decode_sprite(&grey_alpha).unwrap().px, vec![[17, 17, 17, 0], [90, 90, 90, 128]]);

    let mut deep = Vec::new();
    image::codecs::png::PngEncoder::new(&mut deep)
        .write_image(&[255u8; 12], 2, 1, ExtendedColorType::Rgb16)
        .unwrap();
    assert_eq!(decode_sprite(&deep).unwrap().px, vec![[255; 4]; 2]);
}

#[test]
fn broken_and_short_files_hold_no_sprite() {
    let file = two_pixels(6, &[], &[1, 2, 3, 4, 5, 6, 7, 8], &[]);
    assert_eq!(decode_sprite(&file).unwrap().px, vec![[1, 2, 3, 4], [5, 6, 7, 8]]);
    for len in [0, 7, 8, 25, 26, 33, 40, 60] {
        assert!(is_readable(&file[..len]), "{len}");
        assert!(decode_sprite(&file[..len]).is_none(), "{len}");
    }
    let mut no_palette = two_pixels(3, &[], &[0, 0], &[]);
    assert!(is_readable(&no_palette));
    assert!(decode_sprite(&no_palette).is_none());
    no_palette[8] = 0xff;
    assert!(is_readable(&no_palette));
    assert!(decode_sprite(&no_palette).is_none());
}

#[test]
fn a_sprite_is_a_png_and_nothing_else() {
    let mut jpeg = Vec::new();
    image::codecs::jpeg::JpegEncoder::new_with_quality(&mut jpeg, 90)
        .write_image(&[200u8; 48], 4, 4, ExtendedColorType::Rgb8)
        .unwrap();
    assert!(image::load_from_memory(&jpeg).is_ok());
    assert!(decode_sprite(&jpeg).is_none());
}

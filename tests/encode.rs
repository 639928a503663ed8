use mandelbrot::encode::{encode_gray_png, EncodeError};

#[test]
fn png_starts_with_signature() {
    let pixels = vec![0u8, 64, 128, 255, 1, 2];
    let bytes = encode_gray_png(&pixels, 3, 2).ok().unwrap();
    assert_eq!(&bytes[..8], &[137u8, 80, 78, 71, 13, 10, 26, 10]);
    assert_ne!(bytes, pixels);
}

#[test]
fn png_encoding_is_repeatable() {
    let pixels: Vec<u8> = (0..=255u8).collect();
    let a = encode_gray_png(&pixels, 16, 16).ok().unwrap();
    let b = encode_gray_png(&pixels, 16, 16).ok().unwrap();
    assert_eq!(a, b);
}

#[test]
fn wrong_buffer_length_is_refused() {
    let pixels = vec![0u8; 5];
    assert_eq!(encode_gray_png(&pixels, 3, 2).err(), Some(EncodeError::SizeMismatch));
}

#[test]
fn oversized_side_is_refused() {
    let pixels = vec![0u8; 0];
    let side = u32::MAX as usize + 1;
    assert_eq!(encode_gray_png(&pixels, side, 0).err(), Some(EncodeError::TooLarge));
}

#[test]
fn empty_image_is_refused_by_encoder() {
    let pixels = vec![0u8; 0];
    assert_eq!(encode_gray_png(&pixels, 0, 4).err(), Some(EncodeError::Encoder));
}

#[test]
fn one_pixel_image_encodes() {
    assert!(encode_gray_png(&vec![200u8], 1, 1).is_ok());
}

#[test]
fn zero_height_is_refused_by_encoder() {
    let pixels = vec![0u8; 0];
    assert_eq!(encode_gray_png(&pixels, 4, 0).err(), Some(EncodeError::Encoder));
}

use ayaya::inflate::{decompress_image, BUFFER_SIZE, NON_WRAPPING_OUTPUT_BUF};

#[test]
fn flag_is_miniz_non_wrapping_output_buffer() {
    assert_eq!(
        NON_WRAPPING_OUTPUT_BUF,
        miniz_oxide::inflate::core::inflate_flags::TINFL_FLAG_USING_NON_WRAPPING_OUTPUT_BUF
    );
    assert_eq!(BUFFER_SIZE, 68865);
}

#[test]
fn decompress_image_inflates_into_full_buffer() {
    let text = "\u{1b}[38;5;16;48;5;16m ▓\u{1b}[0m\n".repeat(100);
    let compressed = miniz_oxide::deflate::compress_to_vec(text.as_bytes(), 6);
    let image = decompress_image(&compressed);
    assert_eq!(image.len(), BUFFER_SIZE);
    assert_eq!(&image[..text.len()], text.as_bytes());
    assert!(image[text.len()..].iter().all(|b| *b == 0));
}

#[test]
fn decompress_image_of_invalid_stream_keeps_buffer_size() {
    let image = decompress_image(&[0xff, 0xff, 0xff]);
    assert_eq!(image.len(), BUFFER_SIZE);
}

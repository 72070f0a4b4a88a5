use captu::ts::subtitle::encode_png;

#[test]
fn encode_png_roundtrip_dimensions() {
    let w = 4u32;
    let h = 2u32;
    let rgba: Vec<u8> = (0..w * h).flat_map(|_| [255u8, 0, 0, 255]).collect();
    let png_bytes = encode_png(&rgba, w, h).expect("encode should succeed");

    let decoder = png::Decoder::new(png_bytes.as_slice());
    let mut reader = decoder.read_info().expect("PNG decode failed");
    let mut buf = vec![0u8; reader.output_buffer_size()];
    let info = reader.next_frame(&mut buf).expect("PNG frame read failed");

    assert_eq!(info.width, w);
    assert_eq!(info.height, h);
    assert_eq!(info.color_type, png::ColorType::Rgba);
}

#[test]
fn encode_png_1x1_transparent() {
    let png_bytes = encode_png(&[0u8, 0, 0, 0], 1, 1).expect("encode should succeed");
    let decoder = png::Decoder::new(png_bytes.as_slice());
    let mut reader = decoder.read_info().expect("PNG decode failed");
    let mut buf = vec![0u8; reader.output_buffer_size()];
    reader.next_frame(&mut buf).expect("frame read failed");
    assert_eq!(buf[3], 0, "alpha channel should be 0 (transparent)");
}

#[test]
fn encode_png_nonempty() {
    let rgba = vec![128u8; 8 * 8 * 4];
    let bytes = encode_png(&rgba, 8, 8).expect("encode should succeed");
    assert!(bytes.starts_with(&[0x89, 0x50, 0x4E, 0x47, 0x0D, 0x0A, 0x1A, 0x0A]));
}

use captu::ts::subtitle::{
    caption_png, captions_fit, composite_rgba, encode_png, extract_captions, is_fully_transparent, AribCaption,
    PngError, RenderedImage, DURATION_INDEFINITE,
};

fn caption(text: &str, pts: i64, wait_duration: i64) -> AribCaption {
    AribCaption {
        text: text.to_string(),
        pts,
        wait_duration,
        clear_screen: false,
    }
}

#[test]
fn what_a_decoded_caption_says() {
    let c = caption("あ", 7, DURATION_INDEFINITE);
    assert_eq!(c.text(), "あ");
    assert_eq!(c.pts_ms(), 7);
    assert_eq!(c.duration_ms(), None);
    assert!(!c.is_clear_screen());
    assert_eq!(caption("", 0, 250).duration_ms(), Some(250));
}

#[test]
fn captions_end_by_duration_by_the_next_one_or_after_five_seconds() {
    let decoded = vec![
        caption(" one ", 1_000, 500),
        caption("   ", 1_200, 100),
        caption("two", 2_000, DURATION_INDEFINITE),
        caption("three", 3_500, DURATION_INDEFINITE),
    ];
    let captions = extract_captions(decoded);
    let got: Vec<(i64, i64, &str)> = captions
        .iter()
        .map(|c| (c.pts_start_ms, c.pts_end_ms, c.text.as_str()))
        .collect();
    assert_eq!(
        got,
        vec![
            (1_000, 1_500, "one"),
            (2_000, 3_500, "two"),
            (3_500, 8_500, "three"),
        ]
    );
}

#[test]
fn captions_that_would_not_last_are_dropped() {
    let decoded = vec![
        caption("zero", 10, 0),
        caption("backwards", 5_000, DURATION_INDEFINITE),
        caption("kept", 4_000, 1),
    ];
    let captions = extract_captions(decoded);
    assert_eq!(captions.len(), 1);
    assert_eq!(captions[0].text, "kept");
    assert!(extract_captions(Vec::new()).is_empty());
}

fn image(x: i32, y: i32, w: i32, h: i32, pixel: [u8; 4]) -> RenderedImage {
    RenderedImage {
        dst_x: x,
        dst_y: y,
        width: w,
        height: h,
        stride: w * 4,
        rgba: pixel.repeat((w * h) as usize),
    }
}

fn pixel(canvas: &[u8], w: usize, x: usize, y: usize) -> [u8; 4] {
    let at = (y * w + x) * 4;
    [canvas[at], canvas[at + 1], canvas[at + 2], canvas[at + 3]]
}

#[test]
fn no_image_leaves_the_frame_clear() {
    assert_eq!(composite_rgba(&[], 3, 2), vec![0u8; 24]);
    assert!(composite_rgba(&[], 0, 5).is_empty());
}

#[test]
fn opaque_pixels_replace_and_clear_ones_do_nothing() {
    let canvas = composite_rgba(
        &[
            image(1, 0, 1, 2, [10, 20, 30, 255]),
            image(0, 1, 2, 1, [9, 9, 9, 0]),
            image(1, 1, 1, 1, [1, 2, 3, 255]),
        ],
        2,
        2,
    );
    assert_eq!(pixel(&canvas, 2, 0, 0), [0, 0, 0, 0]);
    assert_eq!(pixel(&canvas, 2, 1, 0), [10, 20, 30, 255]);
    assert_eq!(pixel(&canvas, 2, 0, 1), [0, 0, 0, 0]);
    assert_eq!(pixel(&canvas, 2, 1, 1), [1, 2, 3, 255]);
}

#[test]
fn half_opaque_pixels_mix() {
    let canvas = composite_rgba(
        &[
            image(0, 0, 1, 1, [200, 100, 0, 255]),
            image(0, 0, 1, 1, [100, 200, 50, 128]),
        ],
        1,
        1,
    );
    // (100 * 128 + 200 * 127) / 255, and so on; 128 + 255 * 127 / 255.
    assert_eq!(pixel(&canvas, 1, 0, 0), [149, 150, 25, 255]);
    let over_clear = composite_rgba(&[image(0, 0, 1, 1, [100, 200, 50, 128])], 1, 1);
    assert_eq!(pixel(&over_clear, 1, 0, 0), [50, 100, 25, 128]);
}

#[test]
fn images_over_the_edge() {
    let red = [255, 0, 0, 255];
    // To the right and below, what does not fit is cut off.
    let canvas = composite_rgba(&[image(1, 1, 5, 5, red)], 2, 2);
    assert_eq!(pixel(&canvas, 2, 1, 1), red);
    assert_eq!(pixel(&canvas, 2, 0, 0), [0, 0, 0, 0]);
    // To the left and above, the image is moved in.
    let moved = composite_rgba(&[image(-3, -3, 1, 1, red)], 2, 2);
    assert_eq!(pixel(&moved, 2, 0, 0), red);
    // Outside altogether.
    assert!(is_fully_transparent(&composite_rgba(
        &[image(7, 0, 1, 1, red), image(0, 7, 1, 1, red)],
        2,
        2
    )));
}

#[test]
fn rows_that_are_not_there() {
    let mut short = image(0, 0, 2, 2, [5, 6, 7, 255]);
    short.rgba.truncate(8 + 4);
    let canvas = composite_rgba(&[short], 2, 2);
    assert_eq!(pixel(&canvas, 2, 1, 0), [5, 6, 7, 255]);
    assert_eq!(pixel(&canvas, 2, 0, 1), [0, 0, 0, 0]);
    let mut odd = image(0, 0, 1, 1, [5, 6, 7, 255]);
    odd.width = -1;
    assert!(is_fully_transparent(&composite_rgba(&[odd], 2, 2)));
    let mut wide = image(0, 0, 1, 2, [5, 6, 7, 255]);
    wide.stride = 6;
    wide.rgba = vec![1, 1, 1, 255, 0, 0, 2, 2, 2, 255];
    let canvas = composite_rgba(&[wide], 1, 2);
    assert_eq!(pixel(&canvas, 1, 0, 0), [1, 1, 1, 255]);
    assert_eq!(pixel(&canvas, 1, 0, 1), [2, 2, 2, 255]);
}

#[test]
fn transparency_looks_at_whole_pixels() {
    assert!(is_fully_transparent(&[]));
    assert!(is_fully_transparent(&[1, 2, 3, 0, 4, 5, 6, 0]));
    assert!(!is_fully_transparent(&[0, 0, 0, 0, 0, 0, 0, 1]));
    assert!(is_fully_transparent(&[0, 0, 0, 0, 9, 9, 9]));
}

#[test]
fn png_errors() {
    assert_eq!(encode_png(&[], 0, 1), Err(PngError::EmptyImage));
    assert_eq!(encode_png(&[], 1, 0), Err(PngError::EmptyImage));
    assert_eq!(encode_png(&[0; 3], 1, 1), Err(PngError::WrongSize));
    assert_eq!(encode_png(&[0; 5], 1, 1), Err(PngError::WrongSize));
}

#[test]
fn the_picture_of_a_caption() {
    assert_eq!(caption_png(&[], 4, 4), None);
    assert_eq!(caption_png(&[image(0, 0, 1, 1, [1, 2, 3, 0])], 4, 4), None);
    assert_eq!(caption_png(&[image(0, 0, 1, 1, [1, 2, 3, 255])], 0, 4), None);
    let file = caption_png(&[image(1, 0, 1, 1, [1, 2, 3, 255])], 2, 1).expect("a picture");
    let mut reader = png::Decoder::new(file.as_slice()).read_info().expect("PNG");
    let mut buf = vec![0u8; reader.output_buffer_size()];
    reader.next_frame(&mut buf).expect("frame");
    assert_eq!(buf, vec![0, 0, 0, 0, 1, 2, 3, 255]);
}

#[test]
fn captions_that_end_in_time() {
    let caption = |text: &str, pts: i64, wait_duration: i64| AribCaption {
        text: text.to_string(),
        pts,
        wait_duration,
        clear_screen: false,
    };
    let late = i64::MAX - 10;
    assert!(captions_fit(&[]));
    assert!(captions_fit(&[caption("a", late, 10)]));
    assert!(!captions_fit(&[caption("a", late, 11)]));
    assert!(captions_fit(&[caption(" ", late, 11)]));
    // Only the last caption with text needs five seconds.
    let open = |text: &str| caption(text, late, DURATION_INDEFINITE);
    assert!(!captions_fit(&[open("a")]));
    assert!(captions_fit(&[open("a"), caption("b", late, 1)]));
    assert!(!captions_fit(&[open("a"), open(" ")]));
    assert!(!captions_fit(&[caption("a", -10, i64::MIN)]));
    let decoded = vec![open("a"), caption("b", late + 1, 1)];
    assert!(captions_fit(&decoded));
    assert_eq!(extract_captions(decoded)[0].pts_end_ms, late + 1);
}

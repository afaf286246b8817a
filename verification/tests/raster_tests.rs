use badapple::raster::{block_luminance, ceil_div_u32, rasterize, ImageGray};

fn solid_image(width: u32, height: u32, v: u8) -> ImageGray {
    ImageGray {
        width,
        height,
        pixels: vec![v; (width * height) as usize],
    }
}

#[test]
fn ceil_div_rounds_up() {
    assert_eq!(ceil_div_u32(480, 480), 1);
    assert_eq!(ceil_div_u32(480, 100), 5);
    assert_eq!(ceil_div_u32(360, 100), 4);
    assert_eq!(ceil_div_u32(7, 2), 4);
    assert_eq!(ceil_div_u32(1, 5), 1);
}

#[test]
fn block_luminance_rounds_to_nearest() {
    // 2x2 image, pixels 10 20 / 30 40: sum 100, divisor 4, average 25.
    let img = ImageGray {
        width: 2,
        height: 2,
        pixels: vec![10, 20, 30, 40],
    };
    assert_eq!(block_luminance(&img, 0, 0, 2, 2), 25);
    // Single pixel, unit block: the luminance is the pixel itself.
    let one = solid_image(1, 1, 200);
    assert_eq!(block_luminance(&one, 0, 0, 1, 1), 200);
}

#[test]
fn block_luminance_uses_vertical_step_squared() {
    // A 2x1 block of 100s sums to 200; the divisor is 1^2, not the block
    // area, so the "average" is 200.
    let img = solid_image(4, 2, 100);
    assert_eq!(block_luminance(&img, 0, 0, 2, 1), 200);
}

#[test]
fn rasterize_is_deterministic() {
    let pixels: Vec<u8> = (0u32..16).map(|i| (i * 16) as u8).collect();
    let a = ImageGray {
        width: 4,
        height: 4,
        pixels: pixels.clone(),
    };
    let b = ImageGray {
        width: 4,
        height: 4,
        pixels,
    };
    let first = rasterize(&a, 2, 2, b"@");
    let second = rasterize(&b, 2, 2, b"@");
    assert_eq!(first, second);
}

#[test]
fn threshold_boundary_is_inclusive() {
    // A single pixel at exactly 125 is blank; 124 is the fill glyph.
    let at = rasterize(&solid_image(1, 1, 125), 1, 1, b"#");
    assert_eq!(at, b"\r \x1b[1B".to_vec());
    let below = rasterize(&solid_image(1, 1, 124), 1, 1, b"#");
    assert_eq!(below, b"\r#\x1b[1B".to_vec());
}

#[test]
fn solid_white_is_all_blank() {
    let frame = rasterize(&solid_image(4, 4, 255), 2, 2, b"#");
    assert_eq!(frame, b"\r  \x1b[1B\r  \x1b[1B".to_vec());
}

#[test]
fn solid_black_is_all_fill() {
    let frame = rasterize(&solid_image(4, 4, 0), 2, 2, b"#");
    assert_eq!(frame, b"\r##\x1b[1B\r##\x1b[1B".to_vec());
}

#[test]
fn build_three_solid_frames() {
    // White, black, and mid-gray at exactly the threshold, 4x4 at 2x2.
    let white = rasterize(&solid_image(4, 4, 255), 2, 2, b"#");
    let black = rasterize(&solid_image(4, 4, 0), 2, 2, b"#");
    let gray = rasterize(&solid_image(4, 4, 125), 2, 2, b"#");
    assert_eq!(white, b"\r  \x1b[1B\r  \x1b[1B".to_vec());
    assert_eq!(black, b"\r##\x1b[1B\r##\x1b[1B".to_vec());
    assert_eq!(gray, b"\r  \x1b[1B\r  \x1b[1B".to_vec());
    // Every row ends with the cursor-down sequence.
    for frame in [&white, &black, &gray] {
        assert_eq!(&frame[3..7], b"\x1b[1B");
        assert_eq!(&frame[10..14], b"\x1b[1B");
    }
}

#[test]
fn multi_byte_fill_glyph() {
    let frame = rasterize(&solid_image(1, 1, 0), 1, 1, b"ab");
    assert_eq!(frame, b"\rab\x1b[1B".to_vec());
}

#[test]
fn uneven_grid_snaps_to_whole_blocks() {
    // 5x5 image at 2x2: steps are ceil(5/2) = 3, extents 5 - 3 = 2, so only
    // one anchor per axis fits: a single 3x3 block at the origin.
    let img = solid_image(5, 5, 0);
    let frame = rasterize(&img, 2, 2, b"#");
    assert_eq!(frame, b"\r#\x1b[1B".to_vec());
}

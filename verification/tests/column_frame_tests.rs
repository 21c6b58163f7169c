use wow_serdes::column_frame::{
    anchor, anchor_columns, dedup_columns, find_key_start, validate_columns, Frame, FrameError,
};
use wow_serdes::pixel::{ColumnError, Pixel};
use wow_serdes::raster::Image;

const BLACK: Pixel = Pixel { r: 0, g: 0, b: 0, a: 255 };

fn sum_mod(bytes: &[u8]) -> u8 {
    (bytes.iter().map(|b| *b as u32).sum::<u32>() % 256) as u8
}

fn solid(width: u32, height: u32, p: Pixel) -> Vec<Pixel> {
    vec![p; (width * height) as usize]
}

fn put(pixels: &mut Vec<Pixel>, width: u32, x: u32, y: u32, p: Pixel) {
    pixels[(y * width + x) as usize] = p;
}

/// Draws columns of the given colours two pixels apart, starting at
/// (ox, oy), each an anchor row, eight rows of its colour and an anchor row.
fn draw(colours: &[Pixel], ox: u32, oy: u32, width: u32, height: u32) -> Vec<Pixel> {
    let mut px = solid(width, height, BLACK);
    for (j, c) in colours.iter().enumerate() {
        let x = ox + 2 * j as u32;
        put(&mut px, width, x, oy, anchor());
        for y in 1..9 {
            put(&mut px, width, x, oy + y, *c);
        }
        put(&mut px, width, x, oy + 9, anchor());
    }
    px
}

fn colours_for(payload: &[u8], size: u16, checksum: u8) -> Vec<Pixel> {
    let mut cols = vec![anchor(), Pixel { r: (size >> 8) as u8, g: (size & 0xff) as u8, b: checksum, a: 255 }];
    for chunk in payload.chunks(3) {
        let g = if chunk.len() > 1 { chunk[1] } else { 0 };
        let b = if chunk.len() > 2 { chunk[2] } else { 0 };
        cols.push(Pixel { r: chunk[0], g, b, a: 255 });
    }
    cols
}

fn image(px: Vec<Pixel>, width: u32, height: u32) -> Image {
    Image::from_pixels(width, height, px).unwrap()
}

#[test]
fn find_key_start_scans_rows_first() {
    let mut px = solid(5, 4, BLACK);
    put(&mut px, 5, 4, 1, Pixel { r: 42, g: 0, b: 69, a: 7 });
    put(&mut px, 5, 1, 2, anchor());
    let img = image(px, 5, 4);
    assert_eq!(find_key_start(&img, [42, 0, 69]), Some((4, 1)));
    assert_eq!(find_key_start(&img, [1, 2, 3]), None);
}

#[test]
fn frame_decodes_payload_drawn_at_an_offset() {
    let payload = b"hello, frame";
    let cols = colours_for(payload, payload.len() as u16, sum_mod(payload));
    let (w, h) = (40, 14);
    let img = image(draw(&cols, 3, 2, w, h), w, h);
    let frame = Frame::new(img.clone()).unwrap();
    assert_eq!(frame.size, payload.len() as u16);
    assert_eq!(frame.pixels, payload.to_vec());
    assert_eq!(frame.img.pixels, img.pixels);
}

#[test]
fn frame_payload_pixels_are_column_colours() {
    let payload = [1u8, 2, 3, 4];
    let cols = colours_for(&payload, 4, 10);
    let img = image(draw(&cols, 0, 0, 12, 10), 12, 10);
    assert_eq!(Frame::get_payload_pixels(&img).unwrap(), cols);
}

#[test]
fn frame_get_payload_drops_padding() {
    let px = vec![Pixel::new(1, 2, 3, 255), Pixel::new(4, 5, 6, 255), Pixel::new(7, 0, 0, 255)];
    assert_eq!(Frame::get_payload(px, 7), vec![1, 2, 3, 4, 5, 6, 7]);
}

#[test]
fn frame_without_anchor_fails() {
    let img = image(solid(10, 10, BLACK), 10, 10);
    let e = Frame::new(img).err().unwrap();
    assert_eq!(e, FrameError::NoKeyStart);
    assert_eq!(e.message(), "MAKE ERROR HERE");
}

#[test]
fn frame_with_wrong_checksum_fails() {
    let payload = [10u8, 20, 30];
    let cols = colours_for(&payload, 3, 61);
    let img = image(draw(&cols, 0, 0, 10, 10), 10, 10);
    let e = Frame::new(img).err().unwrap();
    assert_eq!(e, FrameError::ChecksumMismatch { rx: 61, calc: 60 });
    assert_eq!(e.message(), "Checksum mismatch");
}

#[test]
fn frame_header_column_must_be_anchor() {
    let mut cols = colours_for(&[5u8], 1, 5);
    cols[0] = Pixel::new(1, 1, 1, 255);
    let img = image(draw(&cols, 0, 0, 10, 10), 10, 10);
    let e = Frame::new(img).err().unwrap();
    assert_eq!(e, FrameError::HeaderNotAnchor);
    assert_eq!(e.message(), "rx_header_pixel was not 42069!");
}

#[test]
fn frame_undecidable_first_column_fails() {
    let cols = colours_for(&[5u8], 1, 5);
    let mut px = draw(&cols, 0, 0, 10, 10);
    for y in 1..8 {
        put(&mut px, 10, 0, y, Pixel::new(y as u8, 0, 0, 255));
    }
    let e = Frame::new(image(px, 10, 10)).err().unwrap();
    assert_eq!(e, FrameError::InvalidHeaderColumn);
    assert_eq!(e.message(), "Invalid header_pixel column");
}

#[test]
fn frame_undecidable_data_column_fails() {
    let cols = colours_for(&[5u8], 1, 5);
    let mut px = draw(&cols, 0, 0, 10, 10);
    for y in 1..8 {
        put(&mut px, 10, 4, y, Pixel::new(y as u8, 9, 9, 255));
    }
    let e = Frame::new(image(px, 10, 10)).err().unwrap();
    assert_eq!(e, FrameError::Column(ColumnError::NoMajority));
    assert_eq!(e.message(), "Not at least 3 pixels are the same");
}

#[test]
fn frame_too_short_image_fails() {
    let mut px = solid(6, 5, BLACK);
    put(&mut px, 6, 1, 1, anchor());
    let e = Frame::new(image(px, 6, 5)).err().unwrap();
    assert_eq!(e, FrameError::ImageTooShort);
}

#[test]
fn frame_with_only_anchor_column_has_no_header() {
    let cols = vec![anchor()];
    let img = image(draw(&cols, 0, 0, 4, 10), 4, 10);
    assert_eq!(Frame::new(img).err().unwrap(), FrameError::NoHeader);
}

#[test]
fn frame_without_columns_fails() {
    // The anchor pixel is there but no column is closed by a second anchor.
    let mut px = solid(6, 12, BLACK);
    put(&mut px, 6, 2, 1, anchor());
    let e = Frame::new(image(px, 6, 12)).err().unwrap();
    assert_eq!(e, FrameError::NoColumns);
}

#[test]
fn frame_size_beyond_columns_fails() {
    let cols = colours_for(&[1u8, 2, 3], 4, 6);
    let img = image(draw(&cols, 0, 0, 10, 10), 10, 10);
    assert_eq!(Frame::new(img).err().unwrap(), FrameError::SizeExceedsPayload);
}

#[test]
fn doubled_column_is_read_once() {
    let payload = [7u8, 8, 9];
    let cols = colours_for(&payload, 3, 24);
    // columns three pixels apart, the header column drawn two pixels wide
    let (w, h) = (12, 10);
    let mut px = solid(w, h, BLACK);
    let mut draw_at = |x: u32, c: Pixel| {
        put(&mut px, w, x, 0, anchor());
        for y in 1..9 {
            put(&mut px, w, x, y, c);
        }
        put(&mut px, w, x, 9, anchor());
    };
    draw_at(0, cols[0]);
    draw_at(3, cols[1]);
    draw_at(4, cols[1]);
    draw_at(7, cols[2]);
    let img = image(px, w, h);
    let tup = anchor_columns(&img).unwrap();
    let xs: Vec<u32> = tup.iter().map(|t| t.0).collect();
    assert_eq!(xs, vec![0, 3, 4, 7]);
    let kept = dedup_columns(&tup);
    assert_eq!(kept.len(), 3);
    let frame = Frame::new(img).unwrap();
    assert_eq!(frame.pixels, payload.to_vec());
}

#[test]
fn validate_columns_reports_first_failure() {
    let good = vec![BLACK; 7];
    let empty: Vec<Pixel> = Vec::new();
    let mixed: Vec<Pixel> = (0..7).map(|i| Pixel::new(i, 0, 0, 255)).collect();
    assert_eq!(validate_columns(&vec![good.clone(), good.clone()]), Ok(vec![BLACK, BLACK]));
    assert_eq!(validate_columns(&vec![good.clone(), empty.clone(), mixed.clone()]), Err(ColumnError::PixelsEmpty));
    assert_eq!(validate_columns(&vec![mixed, empty]), Err(ColumnError::NoMajority));
}

#[test]
fn frame_reads_the_same_wherever_it_is_drawn() {
    let payload = b"moved";
    let cols = colours_for(payload, payload.len() as u16, sum_mod(payload));
    let at_corner = image(draw(&cols, 0, 0, 16, 10), 16, 10);
    let moved = image(draw(&cols, 5, 3, 21, 13), 21, 13);
    assert_eq!(
        Frame::get_payload_pixels(&at_corner).unwrap(),
        Frame::get_payload_pixels(&moved).unwrap()
    );
    assert_eq!(Frame::new(moved).unwrap().pixels, payload.to_vec());
}

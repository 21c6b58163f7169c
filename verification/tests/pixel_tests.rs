use wow_serdes::payload::{checksum, payload_bytes};
use wow_serdes::pixel::{color_to_integer, decode_header, pixel_validate_get2, ColumnError, Pixel};
use wow_serdes::probe;
use wow_serdes::raster::Image;

fn p(r: u8, g: u8, b: u8) -> Pixel {
    Pixel::new(r, g, b, 255)
}

#[test]
fn color_to_integer_puts_red_highest() {
    assert_eq!(color_to_integer(&Pixel::new(1, 2, 3, 4)), 0x010203);
    assert_eq!(color_to_integer(&p(255, 255, 255)), 0xffffff);
    assert_eq!(color_to_integer(&p(42, 0, 69)), 42 * 65536 + 69);
}

#[test]
fn decode_header_splits_size_and_checksum() {
    assert_eq!(decode_header(0x12345678), (0x3456, 0x78));
    assert_eq!(decode_header(0), (0, 0));
    assert_eq!(decode_header(0xffffffff), (0xffff, 0xff));
}

#[test]
fn header_pixel_carries_size_and_checksum() {
    let px = p(0x01, 0x2c, 0x9a);
    assert_eq!(decode_header(color_to_integer(&px)), (300, 0x9a));
}

#[test]
fn probe_header_fields_are_channels() {
    assert_eq!(probe::decode_header(0x0a0b0c), (0x0a, 0x0b, 0x0c));
    assert_eq!(probe::decode_header(color_to_integer(&p(9, 8, 7))), (9, 8, 7));
    assert_eq!(probe::decode_header(0x01020304), (0x0102, 0x03, 0x04));
}

#[test]
fn column_vote_needs_three_equal_pixels() {
    assert_eq!(pixel_validate_get2(&vec![]), Err(ColumnError::PixelsEmpty));
    let a = p(1, 1, 1);
    let b = p(2, 2, 2);
    assert_eq!(pixel_validate_get2(&vec![a, b, a, b]), Err(ColumnError::NoMajority));
    assert_eq!(pixel_validate_get2(&vec![b, a, a, b, a]), Ok(a));
    assert_eq!(pixel_validate_get2(&vec![a; 7]), Ok(a));
}

#[test]
fn column_vote_tie_goes_to_channel_order() {
    let a = p(1, 1, 1);
    let b = p(2, 2, 2);
    assert_eq!(pixel_validate_get2(&vec![b, a, a, b, a, b]), Ok(a));
    assert_eq!(pixel_validate_get2(&vec![a, b, b, b, a, a]), Ok(a));
    assert_eq!(pixel_validate_get2(&vec![b, b, b, a, a, a]), Ok(a));
    let c = Pixel::new(1, 1, 1, 0);
    assert_eq!(pixel_validate_get2(&vec![a, a, a, c, c, c]), Ok(c));
}

#[test]
fn column_vote_ignores_order() {
    let a = p(5, 0, 0);
    let b = p(0, 5, 0);
    let c = p(0, 0, 5);
    let col = vec![a, b, a, c, a, b, b];
    let mut rev = col.clone();
    rev.reverse();
    assert_eq!(pixel_validate_get2(&col), pixel_validate_get2(&rev));
    assert_eq!(pixel_validate_get2(&col), Ok(b));
}

#[test]
fn column_error_messages() {
    assert_eq!(ColumnError::PixelsEmpty.message(), "pixels array empty");
    assert_eq!(ColumnError::NoMajority.message(), "Not at least 3 pixels are the same");
}

#[test]
fn checksum_is_byte_sum_mod_256() {
    assert_eq!(checksum(&vec![]), 0);
    assert_eq!(checksum(&vec![1, 2, 3]), 6);
    assert_eq!(checksum(&vec![200, 100]), 44);
    assert_eq!(checksum(&vec![255; 3]), 253);
}

#[test]
fn payload_bytes_reads_rgb_and_drops_padding() {
    let px = vec![Pixel::new(1, 2, 3, 9), Pixel::new(4, 5, 6, 9)];
    assert_eq!(payload_bytes(&px, 6), vec![1, 2, 3, 4, 5, 6]);
    assert_eq!(payload_bytes(&px, 4), vec![1, 2, 3, 4]);
    assert_eq!(payload_bytes(&px, 0), Vec::<u8>::new());
}

fn sample() -> Image {
    // 3 x 2 image
    let px = vec![p(0, 0, 0), p(1, 0, 0), p(2, 0, 0), p(0, 1, 0), p(1, 1, 0), p(2, 1, 0)];
    Image::from_pixels(3, 2, px).unwrap()
}

#[test]
fn image_from_pixels_checks_count() {
    assert!(Image::from_pixels(2, 2, vec![p(0, 0, 0); 3]).is_none());
    let img = sample();
    assert_eq!(img.get_pixel(2, 1), p(2, 1, 0));
    assert_eq!(img.get_pixel(0, 1), p(0, 1, 0));
}

#[test]
fn image_rgba_bytes_roundtrip() {
    let img = sample();
    let bytes = img.to_rgba_bytes();
    assert_eq!(bytes.len(), 24);
    assert_eq!(&bytes[4..8], &[1, 0, 0, 255]);
    let back = Image::from_rgba_bytes(3, 2, &bytes).unwrap();
    assert_eq!(back.pixels, img.pixels);
    assert!(Image::from_rgba_bytes(3, 2, &bytes[..23].to_vec()).is_none());
    let mut longer = bytes.clone();
    longer.push(7);
    assert_eq!(Image::from_rgba_bytes(3, 2, &longer).unwrap().pixels, img.pixels);
}

#[test]
fn crop_clamps_to_the_image() {
    let img = sample();
    let c = img.crop(1, 0, 5, 5);
    assert_eq!((c.width, c.height), (2, 2));
    assert_eq!(c.pixels, vec![p(1, 0, 0), p(2, 0, 0), p(1, 1, 0), p(2, 1, 0)]);
    let e = img.crop(7, 9, 2, 2);
    assert_eq!((e.width, e.height), (0, 0));
    let one = img.crop(2, 1, 1, 1);
    assert_eq!(one.pixels, vec![p(2, 1, 0)]);
}

#[test]
fn flip_vertical_reverses_rows() {
    let img = sample();
    let f = img.flip_vertical();
    assert_eq!(f.pixels, vec![p(0, 1, 0), p(1, 1, 0), p(2, 1, 0), p(0, 0, 0), p(1, 0, 0), p(2, 0, 0)]);
    assert_eq!(f.flip_vertical().pixels, img.pixels);
}

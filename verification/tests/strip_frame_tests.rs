use wow_serdes::pixel::{ColumnError, Pixel};
use wow_serdes::raster::Image;
use wow_serdes::strip_frame::{
    checksum_verdict, frame_from_imgbuf, pixel_validate_get, read_strip, ChecksumVerdict, Frame,
    RxBytes, StripError, StripStep, CAPTURE_MAX_H, vote_error_message,
};

const BG: Pixel = Pixel { r: 9, g: 9, b: 9, a: 255 };

fn i2p(i: u32) -> u32 {
    (i / 2) * 5 + if i % 2 == 1 { 3 } else { 0 }
}

/// Draws a strip: the header colour at x = 0, then one column per three
/// payload bytes at the positions 3, 5, 8, 10, ...
fn strip(size: u16, checksum: u8, payload: &[u8], width: u32) -> Image {
    let mut cols = vec![Pixel::new((size >> 8) as u8, (size & 0xff) as u8, checksum, 255)];
    for chunk in payload.chunks(3) {
        let g = if chunk.len() > 1 { chunk[1] } else { 0 };
        let b = if chunk.len() > 2 { chunk[2] } else { 0 };
        cols.push(Pixel::new(chunk[0], g, b, 255));
    }
    let h = CAPTURE_MAX_H;
    let mut px = vec![BG; (width * h) as usize];
    for (i, c) in cols.iter().enumerate() {
        let x = i2p(i as u32);
        if x < width {
            for y in 0..h {
                px[(y * width + x) as usize] = *c;
            }
        }
    }
    Image::from_pixels(width, h, px).unwrap()
}

fn sum_mod(bytes: &[u8]) -> u8 {
    (bytes.iter().map(|b| *b as u32).sum::<u32>() % 256) as u8
}

#[test]
fn i2p_follows_drawn_positions() {
    let xs: Vec<u32> = (0..8).map(Frame::i2p).collect();
    assert_eq!(xs, vec![0, 3, 5, 8, 10, 13, 15, 18]);
}

#[test]
fn frame_header_reads_size_and_checksum() {
    let img = strip(0x0102, 0x33, &[], 40);
    let f = frame_from_imgbuf(img).unwrap();
    assert_eq!((f.size, f.checksum, f.height), (0x0102, 0x33, CAPTURE_MAX_H));
}

#[test]
fn frame_header_errors() {
    let tiny = Image::from_pixels(3, 2, vec![BG; 6]).unwrap();
    assert_eq!(frame_from_imgbuf(tiny).err().unwrap(), StripError::ImageTooSmall);
    let px: Vec<Pixel> = (0..24).map(|i| Pixel::new(i as u8, 0, 0, 255)).collect();
    let noisy = Image::from_pixels(4, 6, px).unwrap();
    let e = frame_from_imgbuf(noisy).err().unwrap();
    assert_eq!(e, StripError::BadHeaderPixel);
    assert_eq!(e.message(), "bad header pixel");
}

#[test]
fn pixel_validate_get_reads_a_column() {
    let img = strip(3, 0, &[1, 2, 3], 10);
    assert_eq!(pixel_validate_get(&img, 3, 6), Ok(Pixel::new(1, 2, 3, 255)));
    assert_eq!(pixel_validate_get(&img, 1, 6), Ok(BG));
    let f = frame_from_imgbuf(img).unwrap();
    assert_eq!(f.pixel_validate_get(3), Ok(Pixel::new(1, 2, 3, 255)));
}

#[test]
fn payload_is_read_from_spaced_columns() {
    let payload = b"strip payload!";
    let img = strip(payload.len() as u16, sum_mod(payload), payload, 60);
    let f = frame_from_imgbuf(img).unwrap();
    assert_eq!(f.get_payload_pixels().unwrap().len(), 5);
    assert_eq!(f.get_payload().unwrap(), payload.to_vec());
}

#[test]
fn payload_column_outside_capture_fails() {
    let payload = [1u8; 12];
    let img = strip(12, 12, &payload, 9);
    let f = frame_from_imgbuf(img).unwrap();
    assert_eq!(f.get_payload().err().unwrap(), StripError::ColumnOutsideImage);
}

#[test]
fn payload_bad_column_fails() {
    let img = strip(6, 0, &[1, 2, 3, 4, 5, 6], 20);
    let mut px = img.pixels.clone();
    for y in 0..6u32 {
        px[(y * 20 + 5) as usize] = Pixel::new(y as u8, 1, 1, 255);
    }
    let img = Image::from_pixels(20, 6, px).unwrap();
    let f = frame_from_imgbuf(img).unwrap();
    let e = f.get_payload().err().unwrap();
    assert_eq!(e, StripError::Payload(ColumnError::NoMajority));
    assert_eq!(e.message(), "payload err");
    assert_eq!(vote_error_message(ColumnError::NoMajority), "FRAME: Not at least 3 pixels are the same");
}

#[test]
fn rx_bytes_checksum() {
    let w = RxBytes::new(vec![100, 100, 100]);
    assert_eq!(w.checksum, 44);
    assert_eq!(w.b, vec![100, 100, 100]);
}

#[test]
fn checksum_verdicts() {
    assert_eq!(checksum_verdict(5, 5), ChecksumVerdict::Match);
    assert_eq!(checksum_verdict(6, 5), ChecksumVerdict::OffByOne);
    assert_eq!(checksum_verdict(7, 5), ChecksumVerdict::Mismatch);
    assert_eq!(checksum_verdict(0, 255), ChecksumVerdict::CalcOverflow);
}

#[test]
fn read_strip_delivers_checked_payload() {
    let payload = b"{\"a\":1}";
    let img = strip(payload.len() as u16, sum_mod(payload), payload, 30);
    match read_strip(img) {
        StripStep::Read { frame, rx, verdict } => {
            assert_eq!(frame.size, payload.len() as u16);
            assert_eq!(rx.b, payload.to_vec());
            assert_eq!(verdict, ChecksumVerdict::Match);
        }
        other => panic!("unexpected {:?}", other),
    }
}

#[test]
fn read_strip_reports_mismatch_and_failures() {
    let img = strip(3, 7, &[1, 2, 3], 10);
    match read_strip(img) {
        StripStep::Read { verdict, rx, .. } => {
            assert_eq!(rx.checksum, 6);
            assert_eq!(verdict, ChecksumVerdict::OffByOne);
        }
        other => panic!("unexpected {:?}", other),
    }
    let tiny = Image::from_pixels(1, 1, vec![BG]).unwrap();
    assert!(matches!(read_strip(tiny), StripStep::Skip(StripError::ImageTooSmall)));
    let narrow = strip(30, 0, &[1u8; 30], 8);
    assert!(matches!(read_strip(narrow), StripStep::Abort(StripError::ColumnOutsideImage)));
}

//! Frames drawn as a strip: a header column at x = 0, then data columns at
//! the x positions the game draws one-pixel-apart columns at (0, 3, 5, 8, ...).

use vstd::prelude::*;
use crate::pixel::{
    Pixel, ColumnError, column_vote, pixel_validate_get2, rgb_value, header_size,
    header_checksum, color_to_integer, decode_header,
};
use crate::payload::{
    rgb_bytes, checksum_of, checksum, payload_bytes, lemma_rgb_bytes, header_pixel_for,
    pixels_for_bytes,
};
use crate::raster::{Image, Raster};

verus! {

/// Width, in pixels, of the region the reader captures.
pub const CAPTURE_MAX_W: u32 = 900;

/// Height, in pixels, of the region the reader captures, and of a column.
pub const CAPTURE_MAX_H: u32 = 6;

/// The first `height` pixels of column `x`, top down.
pub open spec fn column_spec(r: Raster, x: int, height: int) -> Seq<Pixel> {
    Seq::new(height as nat, |y: int| r.px(x, y))
}

/// Returns the colour column `x` of `img` stands for, reading its first
/// `height` rows: the most frequent pixel, when it occurs at least three times.
pub fn pixel_validate_get(img: &Image, x: u32, height: u32) -> (r: Result<Pixel, ColumnError>)
    requires
        img.wf(),
        x < img.width,
        0 < height <= img.height,
    ensures
        r == column_vote(column_spec(img@, x as int, height as int)),
{
    let mut pixels: Vec<Pixel> = Vec::new();
    let mut y: u32 = 0;
    while y < height
        invariant
            img.wf(),
            x < img.width,
            height <= img.height,
            y <= height,
            pixels@ == column_spec(img@, x as int, y as int),
        decreases height - y,
    {
        pixels.push(img.get_pixel(x, y));
        y = y + 1;
        assert(pixels@ =~= column_spec(img@, x as int, y as int));
    }
    pixel_validate_get2(&pixels)
}

/// The text the strip reader reports when a column stands for no colour.
pub fn vote_error_message(e: ColumnError) -> (m: &'static str)
    ensures
        e == ColumnError::NoMajority ==> m@ == "FRAME: Not at least 3 pixels are the same"@,
        e == ColumnError::PixelsEmpty ==> m@ == "pixels array empty"@,
{
    match e {
        ColumnError::PixelsEmpty => "pixels array empty",
        ColumnError::NoMajority => "FRAME: Not at least 3 pixels are the same",
    }
}

/// Where the game draws the `i`-th of a row of columns asked to be one pixel
/// apart: 0, 3, 5, 8, 10, 13, ...
pub open spec fn i2p_spec(i: int) -> int {
    (i / 2) * 5 + if i % 2 == 1 { 3int } else { 0int }
}

/// Columns asked to be one pixel apart land alternately three and two
/// pixels apart, so that every two columns advance five pixels.
pub proof fn lemma_i2p_steps(i: int)
    requires
        i >= 0,
    ensures
        i2p_spec(i + 2) == i2p_spec(i) + 5,
        i2p_spec(i + 1) - i2p_spec(i) == (if i % 2 == 0 { 3int } else { 2int }),
{
}

/// Distinct columns land on distinct, non-adjacent x positions, in order.
pub proof fn lemma_i2p_spaced(i: int, j: int)
    requires
        0 <= i < j,
    ensures
        i2p_spec(i) + 2 <= i2p_spec(j),
    decreases j - i,
{
    lemma_i2p_steps(i);
    if j > i + 1 {
        lemma_i2p_spaced(i + 1, j);
    }
}

/// Why a strip frame cannot be read.
#[derive(Clone, Copy, Debug, PartialEq, Eq, Structural)]
pub enum StripError {
    /// The capture is narrower than one pixel or shorter than a column.
    ImageTooSmall,
    /// The header column does not stand for any colour.
    BadHeaderPixel,
    /// A data column lies right of the capture.
    ColumnOutsideImage,
    /// A data column does not stand for any colour.
    Payload(ColumnError),
}

impl StripError {
    /// The text the reader reports for this error.
    pub fn message(&self) -> (m: &'static str)
        ensures
            *self == StripError::BadHeaderPixel ==> m@ == "bad header pixel"@,
            *self == StripError::ImageTooSmall ==> m@ == "capture smaller than a column"@,
            *self == StripError::ColumnOutsideImage ==> m@ == "column outside the capture"@,
            self is Payload ==> m@ == "payload err"@,
    {
        match self {
            StripError::ImageTooSmall => "capture smaller than a column",
            StripError::BadHeaderPixel => "bad header pixel",
            StripError::ColumnOutsideImage => "column outside the capture",
            StripError::Payload(_) => "payload err",
        }
    }
}

/// A strip frame whose header has been read.
#[derive(Clone, Debug)]
pub struct Frame {
    /// Payload size in bytes.
    pub size: u16,
    /// Checksum of the payload, as the header gives it.
    pub checksum: u8,
    /// How many rows of each column are read.
    pub height: u32,
    /// The capture.
    pub img: Image,
}

/// Reads the header of a strip frame: the colour of the first column, read
/// over `CAPTURE_MAX_H` rows, gives the payload size and checksum.
pub fn frame_from_imgbuf(img: Image) -> (r: Result<Frame, StripError>)
    requires
        img.wf(),
    ensures
        img.width < 1 || img.height < CAPTURE_MAX_H ==> r == Err::<Frame, StripError>(
            StripError::ImageTooSmall,
        ),
        img.width >= 1 && img.height >= CAPTURE_MAX_H ==> {
            let v = column_vote(column_spec(img@, 0, CAPTURE_MAX_H as int));
            match r {
                Ok(f) => v is Ok && f.size == header_size(rgb_value(v.unwrap())) && f.checksum
                    == header_checksum(rgb_value(v.unwrap())) && f.height == CAPTURE_MAX_H && f.img
                    == img && f.wf(),
                Err(e) => v is Err && e == StripError::BadHeaderPixel,
            }
        },
{
    if img.width < 1 || img.height < CAPTURE_MAX_H {
        return Err(StripError::ImageTooSmall);
    }
    let pixel = match pixel_validate_get(&img, 0, CAPTURE_MAX_H) {
        Ok(o) => o,
        Err(_) => {
            return Err(StripError::BadHeaderPixel);
        },
    };
    let header = color_to_integer(&pixel);
    let (size, checksum_rx) = decode_header(header);
    Ok(Frame { size: size, checksum: checksum_rx, height: CAPTURE_MAX_H, img: img })
}

/// The colours of the data columns 1 to `m`, or the first failure.
pub open spec fn strip_pixels_upto(r: Raster, height: int, m: int) -> Result<Seq<Pixel>, StripError>
    decreases m,
{
    if m <= 0 {
        Ok(seq![])
    } else {
        match strip_pixels_upto(r, height, m - 1) {
            Err(e) => Err(e),
            Ok(ps) => if i2p_spec(m) >= r.width {
                Err(StripError::ColumnOutsideImage)
            } else {
                match column_vote(column_spec(r, i2p_spec(m), height)) {
                    Ok(p) => Ok(ps.push(p)),
                    Err(e) => Err(StripError::Payload(e)),
                }
            },
        }
    }
}

/// How many data columns a payload of `size` bytes takes: three bytes each.
pub open spec fn columns_for(size: int) -> int {
    (size + 2) / 3
}

impl Frame {
    /// The frame's capture holds its columns' rows.
    pub open spec fn wf(&self) -> bool {
        self.img.wf() && 0 < self.height <= self.img.height
    }

    /// The colour column `x` stands for.
    pub fn pixel_validate_get(&self, x: u32) -> (r: Result<Pixel, ColumnError>)
        requires
            self.wf(),
            x < self.img.width,
        ensures
            r == column_vote(column_spec(self.img@, x as int, self.height as int)),
    {
        pixel_validate_get(&self.img, x, self.height)
    }

    /// Where the game draws the `i`-th of a row of columns asked to be one
    /// pixel apart: 0, 3, 5, 8, 10, 13, ...
    pub fn i2p(i: u32) -> (v: u32)
        requires
            i2p_spec(i as int) <= u32::MAX,
        ensures
            v == i2p_spec(i as int),
    {
        let r = i % 2;
        let d = i / 2;
        let mut v = d * 5;
        if r == 1 {
            v += 3;
        }
        v
    }

    /// Reads the colours of the data columns, one per three payload bytes,
    /// from the columns after the header.
    pub fn get_payload_pixels(&self) -> (r: Result<Vec<Pixel>, StripError>)
        requires
            self.wf(),
        ensures
            match r {
                Ok(ps) => strip_pixels_upto(self.img@, self.height as int, columns_for(self.size as int))
                    == Ok::<Seq<Pixel>, StripError>(ps@),
                Err(e) => strip_pixels_upto(self.img@, self.height as int, columns_for(self.size as int))
                    == Err::<Seq<Pixel>, StripError>(e),
            },
    {
        let num_pixels: u32 = (self.size as u32 + 2) / 3;
        let mut pix_vec: Vec<Pixel> = Vec::new();
        let mut i: u32 = 1;
        while i <= num_pixels
            invariant
                self.wf(),
                num_pixels == columns_for(self.size as int),
                num_pixels <= 21845,
                1 <= i <= num_pixels + 1,
                strip_pixels_upto(self.img@, self.height as int, i - 1) == Ok::<
                    Seq<Pixel>,
                    StripError,
                >(pix_vec@),
            decreases num_pixels + 1 - i,
        {
            let x = Frame::i2p(i);
            if x >= self.img.width {
                proof {
                    lemma_strip_prefix_err(
                        self.img@,
                        self.height as int,
                        i as int,
                        num_pixels as int,
                        StripError::ColumnOutsideImage,
                    );
                }
                return Err(StripError::ColumnOutsideImage);
            }
            match self.pixel_validate_get(x) {
                Ok(p) => {
                    pix_vec.push(p);
                },
                Err(e) => {
                    proof {
                        lemma_strip_prefix_err(
                            self.img@,
                            self.height as int,
                            i as int,
                            num_pixels as int,
                            StripError::Payload(e),
                        );
                    }
                    return Err(StripError::Payload(e));
                },
            }
            i = i + 1;
        }
        Ok(pix_vec)
    }

    /// The payload: the data columns' red, green and blue bytes in order,
    /// cut to the header's size.
    pub fn get_payload(&self) -> (r: Result<Vec<u8>, StripError>)
        requires
            self.wf(),
        ensures
            match strip_pixels_upto(self.img@, self.height as int, columns_for(self.size as int)) {
                Ok(ps) => r matches Ok(bytes) && bytes@ == rgb_bytes(ps).take(self.size as int)
                    && bytes@.len() == self.size,
                Err(e) => r == Err::<Vec<u8>, StripError>(e),
            },
    {
        let myvec = match self.get_payload_pixels() {
            Ok(o) => o,
            Err(e) => {
                return Err(e);
            },
        };
        proof {
            lemma_strip_len(self.img@, self.height as int, columns_for(self.size as int));
            lemma_rgb_bytes(myvec@);
            assert(3 * columns_for(self.size as int) >= self.size);
        }
        let bytevec = payload_bytes(&myvec, self.size);
        Ok(bytevec)
    }
}

/// A failure on data column `i` is the failure of any longer run of columns.
pub proof fn lemma_strip_prefix_err(r: Raster, height: int, i: int, m: int, e: StripError)
    requires
        1 <= i <= m,
        strip_pixels_upto(r, height, i - 1) is Ok,
        i2p_spec(i) >= r.width ==> e == StripError::ColumnOutsideImage,
        i2p_spec(i) < r.width ==> column_vote(column_spec(r, i2p_spec(i), height)) is Err
            && e == StripError::Payload(column_vote(column_spec(r, i2p_spec(i), height))->Err_0),
    ensures
        strip_pixels_upto(r, height, m) == Err::<Seq<Pixel>, StripError>(e),
    decreases m - i,
{
    if i < m {
        lemma_strip_prefix_err(r, height, i, m - 1, e);
    }
}

/// When the columns are all read, there is one colour per column.
pub proof fn lemma_strip_len(r: Raster, height: int, m: int)
    requires
        m >= 0,
        strip_pixels_upto(r, height, m) is Ok,
    ensures
        strip_pixels_upto(r, height, m).unwrap().len() == m,
    decreases m,
{
    if m > 0 {
        lemma_strip_len(r, height, m - 1);
    }
}

/// The bytes of a payload together with their checksum.
#[derive(Clone, Debug)]
pub struct RxBytes {
    pub b: Vec<u8>,
    pub checksum: u8,
}

impl RxBytes {
    /// Wraps received bytes with their checksum (byte sum modulo 256).
    pub fn new(b: Vec<u8>) -> (r: Self)
        ensures
            r.b@ == b@,
            r.checksum == checksum_of(b@),
    {
        let checksum = checksum(&b);
        Self { b, checksum }
    }
}

/// How the header's checksum compares with the one computed over the payload.
#[derive(Clone, Copy, Debug, PartialEq, Eq, Structural)]
pub enum ChecksumVerdict {
    /// They are equal.
    Match,
    /// They differ, and the header's is not one more than the computed one.
    Mismatch,
    /// The header's is one more than the computed one.
    OffByOne,
    /// They differ and the computed one is 255, so that adding one to it
    /// overflows.
    CalcOverflow,
}

/// The verdict on a header checksum `rx` against a computed checksum `calc`.
pub open spec fn verdict_spec(rx: u8, calc: u8) -> ChecksumVerdict {
    if rx == calc {
        ChecksumVerdict::Match
    } else if calc == 255 {
        ChecksumVerdict::CalcOverflow
    } else if rx == calc + 1 {
        ChecksumVerdict::OffByOne
    } else {
        ChecksumVerdict::Mismatch
    }
}

/// The verdict is a match exactly when the two checksums are equal; two
/// different checksums are reported as off by one exactly when the header's
/// is one more than the computed one (which cannot then be 255).
pub proof fn lemma_verdict_meaning(rx: u8, calc: u8)
    ensures
        (verdict_spec(rx, calc) == ChecksumVerdict::Match) <==> rx == calc,
        (verdict_spec(rx, calc) == ChecksumVerdict::OffByOne) <==> (rx as int == calc as int + 1),
        (verdict_spec(rx, calc) == ChecksumVerdict::CalcOverflow) <==> (rx != calc && calc == 255),
        (verdict_spec(rx, calc) == ChecksumVerdict::Mismatch) <==> (rx != calc && calc != 255
            && rx as int != calc as int + 1),
{
}

/// Compares a header checksum with the computed one.
pub fn checksum_verdict(rx: u8, calc: u8) -> (v: ChecksumVerdict)
    ensures
        v == verdict_spec(rx, calc),
{
    if rx == calc {
        ChecksumVerdict::Match
    } else if calc == 255 {
        ChecksumVerdict::CalcOverflow
    } else if rx == calc + 1 {
        ChecksumVerdict::OffByOne
    } else {
        ChecksumVerdict::Mismatch
    }
}

/// What a capture of a strip frame holds.
pub enum StripDecode {
    /// The header cannot be read.
    HeaderFailed(StripError),
    /// The header was read, the payload cannot be.
    PayloadFailed(StripError),
    /// The header's size and checksum, and the payload.
    Payload { size: int, checksum: int, bytes: Seq<u8> },
}

/// What a capture of a strip frame holds: the header column (x = 0, read
/// over `CAPTURE_MAX_H` rows) gives the size and checksum, the data columns
/// (one per three bytes) give the payload, cut to the size.
pub open spec fn strip_decode_spec(r: Raster) -> StripDecode {
    if r.width < 1 || r.height < CAPTURE_MAX_H {
        StripDecode::HeaderFailed(StripError::ImageTooSmall)
    } else {
        match column_vote(column_spec(r, 0, CAPTURE_MAX_H as int)) {
            Err(_) => StripDecode::HeaderFailed(StripError::BadHeaderPixel),
            Ok(p) => {
                let size = header_size(rgb_value(p));
                match strip_pixels_upto(r, CAPTURE_MAX_H as int, columns_for(size)) {
                    Err(e) => StripDecode::PayloadFailed(e),
                    Ok(ps) => StripDecode::Payload {
                        size,
                        checksum: header_checksum(rgb_value(p)),
                        bytes: rgb_bytes(ps).take(size),
                    },
                }
            },
        }
    }
}

/// What the reader does with one capture.
#[derive(Clone, Debug)]
pub enum StripStep {
    /// The header cannot be read: report it and take the next capture.
    Skip(StripError),
    /// The payload cannot be read: the reader stops.
    Abort(StripError),
    /// The payload was read; `verdict` says whether its checksum is right.
    Read { frame: Frame, rx: RxBytes, verdict: ChecksumVerdict },
}

/// Decodes one capture of a strip frame: reads its header, then its payload
/// and the payload's checksum, and compares that with the header's.
pub fn read_strip(img: Image) -> (step: StripStep)
    requires
        img.wf(),
    ensures
        match step {
            StripStep::Skip(e) => strip_decode_spec(img@) == StripDecode::HeaderFailed(e),
            StripStep::Abort(e) => strip_decode_spec(img@) == StripDecode::PayloadFailed(e),
            StripStep::Read { frame, rx, verdict } => {
                &&& strip_decode_spec(img@) == (StripDecode::Payload {
                    size: frame.size as int,
                    checksum: frame.checksum as int,
                    bytes: rx.b@,
                })
                &&& frame.img == img
                &&& rx.checksum == checksum_of(rx.b@)
                &&& verdict == verdict_spec(frame.checksum, rx.checksum)
            },
        },
{
    let frame = match frame_from_imgbuf(img) {
        Ok(v) => v,
        Err(e) => {
            return StripStep::Skip(e);
        },
    };
    let payload = match frame.get_payload() {
        Ok(b) => b,
        Err(e) => {
            return StripStep::Abort(e);
        },
    };
    let w = RxBytes::new(payload);
    let verdict = checksum_verdict(frame.checksum, w.checksum);
    StripStep::Read { frame, rx: w, verdict }
}

/// The column a strip drawn from the colours `cols` shows at `x`: colour
/// `i` is drawn at `i2p_spec(i)`.
pub open spec fn strip_col_at(cols: Seq<Pixel>, x: int) -> Option<int> {
    if x % 5 == 0 && 2 * (x / 5) < cols.len() {
        Some(2 * (x / 5))
    } else if x % 5 == 3 && 2 * (x / 5) + 1 < cols.len() {
        Some(2 * (x / 5) + 1)
    } else {
        None
    }
}

/// The image of a strip: colour `i` of `cols` drawn as a column at
/// `i2p_spec(i)`, `CAPTURE_MAX_H` rows high, on `background`.
pub open spec fn draw_strip(cols: Seq<Pixel>, background: Pixel) -> Raster {
    let w: int = 5 * (cols.len() as int);
    let h: int = CAPTURE_MAX_H as int;
    Raster {
        width: w as nat,
        height: h as nat,
        pixels: Seq::new(
            (w * h) as nat,
            |k: int|
                match strip_col_at(cols, k % w) {
                    Some(i) => cols[i],
                    None => background,
                },
        ),
    }
}

/// The colours of the columns a payload is drawn as in a strip: the header,
/// then three payload bytes per column.
pub open spec fn strip_colours(bs: Seq<u8>) -> Seq<Pixel> {
    seq![header_pixel_for(bs)] + pixels_for_bytes(bs)
}

/// In a drawn strip, column `i2p_spec(i)` is uniformly colour `i`.
proof fn lemma_strip_column(cols: Seq<Pixel>, background: Pixel, i: int)
    requires
        0 <= i < cols.len(),
    ensures
        i2p_spec(i) < 5 * cols.len(),
        column_spec(draw_strip(cols, background), i2p_spec(i), CAPTURE_MAX_H as int) == Seq::new(
            CAPTURE_MAX_H as nat,
            |k: int| cols[i],
        ),
{
    let r = draw_strip(cols, background);
    let w: int = 5 * (cols.len() as int);
    let h: int = CAPTURE_MAX_H as int;
    let x = i2p_spec(i);
    assert(x % 5 == (if i % 2 == 1 { 3int } else { 0int }) && x / 5 == i / 2);
    assert(strip_col_at(cols, x) == Some(i));
    assert forall|y: int| 0 <= y < h implies #[trigger] r.px(x, y) == cols[i] by {
        crate::raster::lemma_idx_bound(w, h, x, y);
        vstd::arithmetic::div_mod::lemma_fundamental_div_mod_converse(y * w + x, w, y, x);
    }
    assert(column_spec(r, x, h) =~= Seq::new(CAPTURE_MAX_H as nat, |k: int| cols[i]));
}

/// In a drawn strip, data columns 1 to `m` stand for colours 1 to `m`.
proof fn lemma_strip_run(cols: Seq<Pixel>, background: Pixel, m: int)
    requires
        0 <= m < cols.len(),
    ensures
        strip_pixels_upto(draw_strip(cols, background), CAPTURE_MAX_H as int, m) == Ok::<
            Seq<Pixel>,
            StripError,
        >(cols.subrange(1, m + 1)),
    decreases m,
{
    let r = draw_strip(cols, background);
    if m == 0 {
        assert(cols.subrange(1, 1) =~= seq![]);
    } else {
        lemma_strip_run(cols, background, m - 1);
        lemma_strip_column(cols, background, m);
        crate::pixel::lemma_vote_uniform(CAPTURE_MAX_H as nat, cols[m]);
        assert(cols.subrange(1, m).push(cols[m]) =~= cols.subrange(1, m + 1));
    }
}

/// A payload of at most 65535 bytes drawn as a strip (header column at
/// x = 0, then its bytes three per column at the positions the game draws
/// them) is read back as that payload, with the matching checksum; the
/// reader then finds the checksums equal.
pub proof fn lemma_drawn_strip_decodes(bs: Seq<u8>, background: Pixel)
    requires
        bs.len() <= 0xffff,
    ensures
        strip_decode_spec(draw_strip(strip_colours(bs), background)) == (StripDecode::Payload {
            size: bs.len() as int,
            checksum: checksum_of(bs),
            bytes: bs,
        }),
{
    let cols = strip_colours(bs);
    let r = draw_strip(cols, background);
    lemma_strip_column(cols, background, 0);
    crate::pixel::lemma_vote_uniform(CAPTURE_MAX_H as nat, cols[0]);
    assert(i2p_spec(0) == 0);
    crate::payload::lemma_header_pixel_for(bs);
    let n = columns_for(bs.len() as int);
    assert(n == pixels_for_bytes(bs).len());
    lemma_strip_run(cols, background, n);
    assert(cols.subrange(1, n + 1) =~= pixels_for_bytes(bs));
    crate::payload::lemma_payload_roundtrip(bs);
}

} // verus!

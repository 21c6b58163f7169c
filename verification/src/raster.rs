//! RGBA images held as rows of pixels, with the pixel-level operations the
//! frame readers apply to screen captures.

use vstd::prelude::*;
use crate::pixel::Pixel;

verus! {

/// Position of pixel `(x, y)` in a row-major buffer whose rows are `w` wide.
pub open spec fn idx(w: int, x: int, y: int) -> int {
    y * w + x
}

/// The mathematical model of an image: its size and its pixels, row after row.
pub struct Raster {
    pub width: nat,
    pub height: nat,
    pub pixels: Seq<Pixel>,
}

impl Raster {
    /// The buffer holds exactly one pixel per position.
    pub open spec fn wf(self) -> bool {
        self.pixels.len() == self.width * self.height
    }

    /// The pixel in column `x` of row `y`.
    pub open spec fn px(self, x: int, y: int) -> Pixel {
        self.pixels[idx(self.width as int, x, y)]
    }
}

/// A pixel buffer position lies inside the buffer.
pub proof fn lemma_idx_bound(w: int, h: int, x: int, y: int)
    requires
        0 <= x < w,
        0 <= y < h,
    ensures
        0 <= y * w,
        y * w <= idx(w, x, y) < w * h,
{
    assert(0 <= y * w) by (nonlinear_arith)
        requires
            0 <= y,
            0 <= w,
    ;
    assert(y * w + x < w * h) by (nonlinear_arith)
        requires
            0 <= x < w,
            0 <= y < h,
    ;
}

/// The number of pixels of a `u32` by `u32` image fits in a `u64`.
pub proof fn lemma_area_fits_u64(w: u32, h: u32)
    ensures
        w as int * h as int <= u64::MAX,
{
    assert(w as int * h as int <= 0xffff_ffff * 0xffff_ffff) by (nonlinear_arith)
        requires
            w <= 0xffff_ffff,
            h <= 0xffff_ffff,
    ;
}

/// Every buffer position `k` is the position of pixel `(k % w, k / w)`.
pub proof fn lemma_idx_split(w: int, h: int, k: int)
    requires
        0 <= w,
        0 <= h,
        0 <= k < w * h,
    ensures
        0 <= k % w < w,
        0 <= k / w < h,
        idx(w, k % w, k / w) == k,
{
    assert(w > 0) by (nonlinear_arith)
        requires
            0 <= k < w * h,
            0 <= w,
            0 <= h,
    ;
    vstd::arithmetic::div_mod::lemma_fundamental_div_mod(k, w);
    vstd::arithmetic::div_mod::lemma_mod_pos_bound(k, w);
    assert(k / w < h) by (nonlinear_arith)
        requires
            k == w * (k / w) + k % w,
            0 <= k % w,
            k < w * h,
            w > 0,
    ;
    assert(0 <= k / w) by (nonlinear_arith)
        requires
            k == w * (k / w) + k % w,
            k % w < w,
            0 <= k,
            w > 0,
    ;
    assert(idx(w, k % w, k / w) == k) by (nonlinear_arith)
        requires
            k == w * (k / w) + k % w,
    ;
}

/// An RGBA image: `width` by `height` pixels, stored row after row.
#[derive(Clone, Debug)]
pub struct Image {
    pub width: u32,
    pub height: u32,
    pub pixels: Vec<Pixel>,
}

impl View for Image {
    type V = Raster;

    open spec fn view(&self) -> Raster {
        Raster { width: self.width as nat, height: self.height as nat, pixels: self.pixels@ }
    }
}

/// The pixel stored at bytes `4k .. 4k + 4` of an RGBA byte buffer.
pub open spec fn pixel_at_bytes(bs: Seq<u8>, k: int) -> Pixel {
    Pixel { r: bs[4 * k], g: bs[4 * k + 1], b: bs[4 * k + 2], a: bs[4 * k + 3] }
}

/// The image a raw RGBA buffer stands for, when it is long enough.
pub open spec fn raster_from_bytes(width: nat, height: nat, bs: Seq<u8>) -> Option<Raster> {
    if 4 * (width * height) <= bs.len() {
        Some(
            Raster {
                width,
                height,
                pixels: Seq::new(width * height, |k: int| pixel_at_bytes(bs, k)),
            },
        )
    } else {
        None
    }
}

/// The four channels of each pixel, in order.
pub open spec fn rgba_bytes(ps: Seq<Pixel>) -> Seq<u8>
    decreases ps.len(),
{
    if ps.len() == 0 {
        seq![]
    } else {
        rgba_bytes(ps.drop_last()) + seq![ps.last().r, ps.last().g, ps.last().b, ps.last().a]
    }
}

/// Pixel `k` is stored at bytes `4k .. 4k + 4` of the flattened buffer.
pub proof fn lemma_rgba_bytes(ps: Seq<Pixel>)
    ensures
        rgba_bytes(ps).len() == 4 * ps.len(),
        forall|k: int| 0 <= k < ps.len() ==> #[trigger] pixel_at_bytes(rgba_bytes(ps), k) == ps[k],
    decreases ps.len(),
{
    if ps.len() > 0 {
        let prev = ps.drop_last();
        lemma_rgba_bytes(prev);
        assert forall|k: int| 0 <= k < ps.len() implies #[trigger] pixel_at_bytes(
            rgba_bytes(ps),
            k,
        ) == ps[k] by {
            if k < prev.len() {
                assert(pixel_at_bytes(rgba_bytes(prev), k) == prev[k]);
            }
        }
    }
}

/// Flattening an image into its RGBA bytes and reading them back gives the
/// same image.
pub proof fn lemma_rgba_roundtrip(r: Raster)
    requires
        r.wf(),
    ensures
        raster_from_bytes(r.width, r.height, rgba_bytes(r.pixels)) == Some(r),
{
    lemma_rgba_bytes(r.pixels);
    let back = raster_from_bytes(r.width, r.height, rgba_bytes(r.pixels)).unwrap();
    assert(back.pixels =~= r.pixels);
}

/// The smaller of two integers.
pub open spec fn min_int(a: int, b: int) -> int {
    if a <= b {
        a
    } else {
        b
    }
}

/// The part of `r` that starts at `(x, y)` and is at most `w` by `h` pixels,
/// clamped to the image the way `image::imageops::crop_imm` clamps it.
pub open spec fn crop_spec(r: Raster, x: int, y: int, w: int, h: int) -> Raster {
    let cx = min_int(x, r.width as int);
    let cy = min_int(y, r.height as int);
    let cw = min_int(w, r.width - cx);
    let ch = min_int(h, r.height - cy);
    Raster {
        width: cw as nat,
        height: ch as nat,
        pixels: Seq::new((cw * ch) as nat, |k: int| r.px(cx + k % cw, cy + k / cw)),
    }
}

/// The image turned upside down: row `y` becomes row `height - 1 - y`,
/// as `image::imageops::flip_vertical` does.
pub open spec fn flip_spec(r: Raster) -> Raster {
    Raster {
        width: r.width,
        height: r.height,
        pixels: Seq::new(
            r.width * r.height,
            |k: int| r.px(k % (r.width as int), r.height - 1 - k / (r.width as int)),
        ),
    }
}

/// Two images of the same size are equal when they agree at every position.
pub proof fn lemma_raster_ext(a: Raster, b: Raster)
    requires
        a.wf(),
        b.wf(),
        a.width == b.width,
        a.height == b.height,
        forall|x: int, y: int|
            0 <= x < a.width && 0 <= y < a.height ==> #[trigger] a.px(x, y) == b.px(x, y),
    ensures
        a == b,
{
    assert forall|k: int| 0 <= k < a.pixels.len() implies a.pixels[k] == b.pixels[k] by {
        lemma_idx_split(a.width as int, a.height as int, k);
        assert(a.px(k % (a.width as int), k / (a.width as int)) == b.px(
            k % (a.width as int),
            k / (a.width as int),
        ));
    }
    assert(a.pixels =~= b.pixels);
}

/// The pixels of a cropped image are those of the source, shifted by the
/// clamped corner.
pub proof fn lemma_crop_px(r: Raster, x: int, y: int, w: int, h: int, i: int, j: int)
    requires
        0 <= x,
        0 <= y,
        0 <= w,
        0 <= h,
        0 <= i < crop_spec(r, x, y, w, h).width,
        0 <= j < crop_spec(r, x, y, w, h).height,
    ensures
        crop_spec(r, x, y, w, h).wf(),
        crop_spec(r, x, y, w, h).px(i, j) == r.px(
            min_int(x, r.width as int) + i,
            min_int(y, r.height as int) + j,
        ),
{
    let c = crop_spec(r, x, y, w, h);
    let cw = c.width as int;
    let ch = c.height as int;
    lemma_idx_bound(cw, ch, i, j);
    let k = idx(cw, i, j);
    lemma_idx_split(cw, ch, k);
    vstd::arithmetic::div_mod::lemma_fundamental_div_mod_converse(k, cw, j, i);
}

/// The pixels of a flipped image are those of the source, rows reversed.
pub proof fn lemma_flip_px(r: Raster, i: int, j: int)
    requires
        0 <= i < r.width,
        0 <= j < r.height,
    ensures
        flip_spec(r).wf(),
        flip_spec(r).px(i, j) == r.px(i, r.height - 1 - j),
{
    let w = r.width as int;
    let h = r.height as int;
    lemma_idx_bound(w, h, i, j);
    let k = idx(w, i, j);
    vstd::arithmetic::div_mod::lemma_fundamental_div_mod_converse(k, w, j, i);
}

/// Turning an image upside down twice gives it back.
pub proof fn lemma_flip_involution(r: Raster)
    requires
        r.wf(),
    ensures
        flip_spec(flip_spec(r)) == r,
{
    let f = flip_spec(r);
    assert forall|x: int, y: int| 0 <= x < r.width && 0 <= y < r.height implies #[trigger] flip_spec(
        f,
    ).px(x, y) == r.px(x, y) by {
        lemma_flip_px(f, x, y);
        lemma_flip_px(r, x, r.height - 1 - y);
    }
    if r.width > 0 && r.height > 0 {
        lemma_flip_px(f, 0, 0);
        lemma_flip_px(r, 0, 0);
    }
    assert(f.wf()) by {
        assert(f.pixels.len() == r.width * r.height);
    }
    assert(flip_spec(f).wf()) by {
        assert(flip_spec(f).pixels.len() == r.width * r.height);
    }
    lemma_raster_ext(flip_spec(f), r);
}

impl Image {
    /// The buffer holds exactly one pixel per position.
    pub open spec fn wf(&self) -> bool {
        self@.wf()
    }

    /// An image of the given size made of the given pixels, row after row;
    /// `None` when their number is not `width * height`.
    pub fn from_pixels(width: u32, height: u32, pixels: Vec<Pixel>) -> (r: Option<Image>)
        ensures
            r is Some <==> pixels@.len() == width * height,
            r matches Some(img) ==> img.wf() && img.width == width && img.height == height
                && img.pixels@ == pixels@,
    {
        proof {
            lemma_area_fits_u64(width, height);
        }
        let n: u64 = width as u64 * height as u64;
        if pixels.len() as u64 == n {
            Some(Image { width, height, pixels })
        } else {
            None
        }
    }

    /// The image held in a raw RGBA buffer, four bytes per pixel, as
    /// `image::ImageBuffer::from_raw` reads it: `None` when the buffer is
    /// shorter than `4 * width * height` bytes; bytes past that are ignored.
    pub fn from_rgba_bytes(width: u32, height: u32, bytes: &Vec<u8>) -> (r: Option<Image>)
        ensures
            match r {
                Some(img) => img.wf() && raster_from_bytes(width as nat, height as nat, bytes@)
                    == Some(img@),
                None => raster_from_bytes(width as nat, height as nat, bytes@) is None,
            },
    {
        proof {
            lemma_area_fits_u64(width, height);
        }
        let n: u64 = width as u64 * height as u64;
        let cap: u64 = (bytes.len() / 4) as u64;
        if n > cap {
            return None;
        }
        assert(4 * n <= bytes@.len());
        let n = n as usize;
        let mut pixels: Vec<Pixel> = Vec::new();
        let len = bytes.len();
        let mut k: usize = 0;
        while k < n
            invariant
                len == bytes@.len(),
                k <= n,
                n == width * height,
                4 * n <= bytes@.len(),
                pixels@.len() == k,
                forall|j: int| 0 <= j < k ==> #[trigger] pixels@[j] == pixel_at_bytes(bytes@, j),
            decreases n - k,
        {
            assert(4 * k + 3 < bytes@.len());
            let p = Pixel {
                r: bytes[4 * k],
                g: bytes[4 * k + 1],
                b: bytes[4 * k + 2],
                a: bytes[4 * k + 3],
            };
            pixels.push(p);
            k = k + 1;
        }
        let img = Image { width, height, pixels };
        assert(img@.pixels =~= raster_from_bytes(width as nat, height as nat, bytes@).unwrap().pixels);
        Some(img)
    }

    /// The image's pixels as raw RGBA bytes, four per pixel, row after row.
    pub fn to_rgba_bytes(&self) -> (bytes: Vec<u8>)
        ensures
            bytes@ == rgba_bytes(self.pixels@),
    {
        let mut bytes: Vec<u8> = Vec::new();
        let mut k: usize = 0;
        while k < self.pixels.len()
            invariant
                k <= self.pixels.len(),
                bytes@ == rgba_bytes(self.pixels@.take(k as int)),
            decreases self.pixels.len() - k,
        {
            assert(self.pixels@.take(k + 1).drop_last() =~= self.pixels@.take(k as int));
            let p = self.pixels[k];
            bytes.push(p.r);
            bytes.push(p.g);
            bytes.push(p.b);
            bytes.push(p.a);
            k = k + 1;
        }
        assert(self.pixels@.take(k as int) =~= self.pixels@);
        bytes
    }

    /// The pixel in column `x` of row `y`.
    pub fn get_pixel(&self, x: u32, y: u32) -> (p: Pixel)
        requires
            self.wf(),
            x < self.width,
            y < self.height,
        ensures
            p == self@.px(x as int, y as int),
    {
        proof {
            lemma_idx_bound(self.width as int, self.height as int, x as int, y as int);
            assert(self.pixels@.len() == self.pixels.len());
        }
        self.pixels[y as usize * self.width as usize + x as usize]
    }
    /// Copies the part of the image that starts at `(x, y)` and is at most
    /// `width` by `height` pixels, clamped to the image as
    /// `image::imageops::crop_imm(..).to_image()` does.
    pub fn crop(&self, x: u32, y: u32, width: u32, height: u32) -> (out: Image)
        requires
            self.wf(),
        ensures
            out.wf(),
            out@ == crop_spec(self@, x as int, y as int, width as int, height as int),
    {
        let cx = if x < self.width { x } else { self.width };
        let cy = if y < self.height { y } else { self.height };
        let cw = if width < self.width - cx { width } else { self.width - cx };
        let ch = if height < self.height - cy { height } else { self.height - cy };
        let mut out: Vec<Pixel> = Vec::new();
        let mut j: u32 = 0;
        while j < ch
            invariant
                self.wf(),
                cx + cw <= self.width,
                cy + ch <= self.height,
                j <= ch,
                out@.len() == j * cw,
                forall|jj: int, ii: int|
                    0 <= jj < j && 0 <= ii < cw ==> #[trigger] out@[idx(cw as int, ii, jj)]
                        == self@.px(cx + ii, cy + jj),
            decreases ch - j,
        {
            let mut i: u32 = 0;
            while i < cw
                invariant
                    self.wf(),
                    cx + cw <= self.width,
                    cy + ch <= self.height,
                    j < ch,
                    i <= cw,
                    out@.len() == j * cw + i,
                    forall|jj: int, ii: int|
                        0 <= jj < j && 0 <= ii < cw ==> #[trigger] out@[idx(cw as int, ii, jj)]
                            == self@.px(cx + ii, cy + jj),
                    forall|ii: int|
                        0 <= ii < i ==> #[trigger] out@[idx(cw as int, ii, j as int)] == self@.px(
                            cx + ii,
                            cy + j,
                        ),
                decreases cw - i,
            {
                let p = self.get_pixel(cx + i, cy + j);
                let ghost before = out@;
                out.push(p);
                proof {
                    assert forall|jj: int, ii: int| 0 <= jj < j && 0 <= ii < cw implies #[trigger] out@[idx(
                        cw as int,
                        ii,
                        jj,
                    )] == self@.px(cx + ii, cy + jj) by {
                        lemma_idx_bound(cw as int, j as int, ii, jj);
                        assert(cw * j == j * cw) by (nonlinear_arith);
                        assert(out@[idx(cw as int, ii, jj)] == before[idx(cw as int, ii, jj)]);
                    }
                    assert forall|ii: int| 0 <= ii < i + 1 implies #[trigger] out@[idx(
                        cw as int,
                        ii,
                        j as int,
                    )] == self@.px(cx + ii, cy + j) by {
                        if ii < i {
                            assert(out@[idx(cw as int, ii, j as int)] == before[idx(
                                cw as int,
                                ii,
                                j as int,
                            )]);
                        }
                    }
                }
                i = i + 1;
            }
            proof {
                assert(j * cw + cw == (j + 1) * cw) by (nonlinear_arith);
                assert forall|jj: int, ii: int| 0 <= jj < j + 1 && 0 <= ii < cw implies #[trigger] out@[idx(
                    cw as int,
                    ii,
                    jj,
                )] == self@.px(cx + ii, cy + jj) by {
                    if jj == j {
                        assert(out@[idx(cw as int, ii, j as int)] == self@.px(cx + ii, cy + j));
                    }
                }
            }
            j = j + 1;
        }
        let img = Image { width: cw, height: ch, pixels: out };
        proof {
            let c = crop_spec(self@, x as int, y as int, width as int, height as int);
            assert(img@.pixels.len() == cw * ch) by {
                assert(j * cw == cw * ch) by (nonlinear_arith)
                    requires
                        j == ch,
                ;
            }
            assert forall|k: int| 0 <= k < img@.pixels.len() implies img@.pixels[k] == c.pixels[k] by {
                lemma_idx_split(cw as int, ch as int, k);
                let ii = k % (cw as int);
                let jj = k / (cw as int);
                assert(out@[idx(cw as int, ii, jj)] == self@.px(cx + ii, cy + jj));
            }
            assert(img@.pixels =~= c.pixels);
        }
        img
    }

    /// The image turned upside down, as `image::imageops::flip_vertical`
    /// returns it.
    pub fn flip_vertical(&self) -> (out: Image)
        requires
            self.wf(),
        ensures
            out.wf(),
            out@ == flip_spec(self@),
    {
        let w = self.width;
        let h = self.height;
        let mut out: Vec<Pixel> = Vec::new();
        let mut j: u32 = 0;
        while j < h
            invariant
                self.wf(),
                w == self.width,
                h == self.height,
                j <= h,
                out@.len() == j * w,
                forall|jj: int, ii: int|
                    0 <= jj < j && 0 <= ii < w ==> #[trigger] out@[idx(w as int, ii, jj)]
                        == self@.px(ii, h - 1 - jj),
            decreases h - j,
        {
            let mut i: u32 = 0;
            while i < w
                invariant
                    self.wf(),
                    w == self.width,
                    h == self.height,
                    j < h,
                    i <= w,
                    out@.len() == j * w + i,
                    forall|jj: int, ii: int|
                        0 <= jj < j && 0 <= ii < w ==> #[trigger] out@[idx(w as int, ii, jj)]
                            == self@.px(ii, h - 1 - jj),
                    forall|ii: int|
                        0 <= ii < i ==> #[trigger] out@[idx(w as int, ii, j as int)] == self@.px(
                            ii,
                            h - 1 - j,
                        ),
                decreases w - i,
            {
                let p = self.get_pixel(i, h - 1 - j);
                let ghost before = out@;
                out.push(p);
                proof {
                    assert forall|jj: int, ii: int| 0 <= jj < j && 0 <= ii < w implies #[trigger] out@[idx(
                        w as int,
                        ii,
                        jj,
                    )] == self@.px(ii, h - 1 - jj) by {
                        lemma_idx_bound(w as int, j as int, ii, jj);
                        assert(w * j == j * w) by (nonlinear_arith);
                        assert(out@[idx(w as int, ii, jj)] == before[idx(w as int, ii, jj)]);
                    }
                    assert forall|ii: int| 0 <= ii < i + 1 implies #[trigger] out@[idx(
                        w as int,
                        ii,
                        j as int,
                    )] == self@.px(ii, h - 1 - j) by {
                        if ii < i {
                            assert(out@[idx(w as int, ii, j as int)] == before[idx(
                                w as int,
                                ii,
                                j as int,
                            )]);
                        }
                    }
                }
                i = i + 1;
            }
            proof {
                assert(j * w + w == (j + 1) * w) by (nonlinear_arith);
                assert forall|jj: int, ii: int| 0 <= jj < j + 1 && 0 <= ii < w implies #[trigger] out@[idx(
                    w as int,
                    ii,
                    jj,
                )] == self@.px(ii, h - 1 - jj) by {
                    if jj == j {
                        assert(out@[idx(w as int, ii, j as int)] == self@.px(ii, h - 1 - j));
                    }
                }
            }
            j = j + 1;
        }
        let img = Image { width: w, height: h, pixels: out };
        proof {
            let f = flip_spec(self@);
            assert(img@.pixels.len() == w * h) by {
                assert(j * w == w * h) by (nonlinear_arith)
                    requires
                        j == h,
                ;
            }
            assert forall|k: int| 0 <= k < img@.pixels.len() implies img@.pixels[k] == f.pixels[k] by {
                lemma_idx_split(w as int, h as int, k);
                let ii = k % (w as int);
                let jj = k / (w as int);
                assert(out@[idx(w as int, ii, jj)] == self@.px(ii, h - 1 - jj));
            }
            assert(img@.pixels =~= f.pixels);
        }
        img
    }
}

} // verus!

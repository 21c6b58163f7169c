//! Frames drawn as spaced columns: an anchor column, a header column, then
//! the data columns, each column starting and ending with the anchor colour.

use vstd::prelude::*;
use crate::pixel::{
    Pixel, ColumnError, column_vote, pixel_validate_get2, rgb_value, header_size,
    header_checksum, color_to_integer, decode_header,
};
use crate::payload::{
    rgb_bytes, checksum_of, checksum, payload_bytes, pixels_for_bytes, header_pixel_for, channel,
};
use crate::raster::{Image, Raster, crop_spec};

verus! {

/// Width, in pixels, of the region the reader captures.
pub const CAPTURE_MAX_W: u32 = 900;

/// Height of a column's data part; a column is this plus two anchor rows.
pub const CAPTURE_MAX_H: u32 = 8;

/// The anchor colour #2a0045, fully opaque.
pub open spec fn anchor_spec() -> Pixel {
    Pixel { r: 42, g: 0, b: 69, a: 255 }
}

/// The anchor colour #2a0045, fully opaque.
pub fn anchor() -> (p: Pixel)
    ensures
        p == anchor_spec(),
{
    Pixel { r: 42, g: 0, b: 69, a: 255 }
}

/// The red, green and blue channels of `p` are those of `color`.
pub open spec fn rgb_matches(p: Pixel, color: [u8; 3]) -> bool {
    p.r == color@[0] && p.g == color@[1] && p.b == color@[2]
}

/// `(x2, y2)` comes before `(x, y)` when scanning row by row.
pub open spec fn scanned_before(x2: int, y2: int, x: int, y: int) -> bool {
    y2 < y || (y2 == y && x2 < x)
}

/// `(x, y)` is the first pixel of `r`, scanning row by row, whose colour
/// (alpha aside) is `color`.
pub open spec fn is_key_start(r: Raster, color: [u8; 3], x: int, y: int) -> bool {
    &&& 0 <= x < r.width
    &&& 0 <= y < r.height
    &&& rgb_matches(r.px(x, y), color)
    &&& forall|x2: int, y2: int|
        0 <= x2 < r.width && 0 <= y2 < r.height && scanned_before(x2, y2, x, y)
            ==> !rgb_matches(#[trigger] r.px(x2, y2), color)
}

/// The first pixel of `r` whose colour is `color`, if any.
pub open spec fn key_start_spec(r: Raster, color: [u8; 3]) -> Option<(int, int)> {
    if exists|x: int, y: int| is_key_start(r, color, x, y) {
        Some(choose|x: int, y: int| is_key_start(r, color, x, y))
    } else {
        None
    }
}

/// There is only one first match.
pub proof fn lemma_key_start_unique(r: Raster, color: [u8; 3], x1: int, y1: int, x2: int, y2: int)
    requires
        is_key_start(r, color, x1, y1),
        is_key_start(r, color, x2, y2),
    ensures
        x1 == x2 && y1 == y2,
{
    if scanned_before(x1, y1, x2, y2) {
        assert(!rgb_matches(r.px(x1, y1), color));
    } else if scanned_before(x2, y2, x1, y1) {
        assert(!rgb_matches(r.px(x2, y2), color));
    }
}

/// Finds the first pixel, scanning row by row from the top-left, whose red,
/// green and blue channels are `color`.
pub fn find_key_start(buffer: &Image, color: [u8; 3]) -> (r: Option<(u32, u32)>)
    requires
        buffer.wf(),
    ensures
        match r {
            Some((x, y)) => is_key_start(buffer@, color, x as int, y as int),
            None => forall|x: int, y: int|
                0 <= x < buffer.width && 0 <= y < buffer.height ==> !rgb_matches(
                    #[trigger] buffer@.px(x, y),
                    color,
                ),
        },
        r matches Some((x, y)) ==> key_start_spec(buffer@, color) == Some((x as int, y as int)),
        r is None ==> key_start_spec(buffer@, color) is None,
{
    let width = buffer.width;
    let height = buffer.height;
    let mut y: u32 = 0;
    while y < height
        invariant
            buffer.wf(),
            width == buffer.width,
            height == buffer.height,
            y <= height,
            forall|x2: int, y2: int|
                0 <= x2 < width && 0 <= y2 < y ==> !rgb_matches(#[trigger] buffer@.px(x2, y2), color),
        decreases height - y,
    {
        let mut x: u32 = 0;
        while x < width
            invariant
                buffer.wf(),
                width == buffer.width,
                height == buffer.height,
                y < height,
                x <= width,
                forall|x2: int, y2: int|
                    0 <= x2 < width && 0 <= y2 < y ==> !rgb_matches(
                        #[trigger] buffer@.px(x2, y2),
                        color,
                    ),
                forall|x2: int| 0 <= x2 < x ==> !rgb_matches(#[trigger] buffer@.px(x2, y as int), color),
            decreases width - x,
        {
            let pixel = buffer.get_pixel(x, y);
            if pixel.r == color[0] && pixel.g == color[1] && pixel.b == color[2] {
                proof {
                    assert(is_key_start(buffer@, color, x as int, y as int));
                    let (a, b) = choose|a: int, b: int| is_key_start(buffer@, color, a, b);
                    lemma_key_start_unique(buffer@, color, a, b, x as int, y as int);
                }
                return Some((x, y));
            }
            x = x + 1;
        }
        y = y + 1;
    }
    proof {
        assert forall|a: int, b: int| !is_key_start(buffer@, color, a, b) by {
            if is_key_start(buffer@, color, a, b) {
                assert(!rgb_matches(buffer@.px(a, b), color));
            }
        }
    }
    None
}

/// Column `x` of `c` starts (row 0) and ends (row `CAPTURE_MAX_H + 1`) with
/// the anchor colour.
pub open spec fn is_anchor_col(c: Raster, x: int) -> bool {
    c.px(x, 0) == anchor_spec() && c.px(x, CAPTURE_MAX_H + 1) == anchor_spec()
}

/// The data part of column `x`: rows 1 to `CAPTURE_MAX_H - 1`.
pub open spec fn col_pixels(c: Raster, x: int) -> Seq<Pixel> {
    Seq::new((CAPTURE_MAX_H - 1) as nat, |k: int| c.px(x, k + 1))
}

/// The anchor columns among the first `n` columns of `c`, left to right.
pub open spec fn anchor_xs_upto(c: Raster, n: int) -> Seq<int>
    decreases n,
{
    if n <= 0 {
        seq![]
    } else if is_anchor_col(c, n - 1) {
        anchor_xs_upto(c, n - 1).push(n - 1)
    } else {
        anchor_xs_upto(c, n - 1)
    }
}

/// The anchor columns of `c`, left to right; the last column is never one.
pub open spec fn anchor_xs(c: Raster) -> Seq<int> {
    anchor_xs_upto(c, c.width - 1)
}

/// The anchor columns among the first `n` lie left of `n`, in increasing order.
pub proof fn lemma_anchor_xs_sorted(c: Raster, n: int)
    ensures
        forall|i: int|
            0 <= i < anchor_xs_upto(c, n).len() ==> 0 <= #[trigger] anchor_xs_upto(c, n)[i] < n,
        forall|i: int, j: int|
            0 <= i < j < anchor_xs_upto(c, n).len() ==> anchor_xs_upto(c, n)[i] < anchor_xs_upto(
                c,
                n,
            )[j],
    decreases n,
{
    if n > 0 {
        lemma_anchor_xs_sorted(c, n - 1);
        let prev = anchor_xs_upto(c, n - 1);
        let cur = anchor_xs_upto(c, n);
        if is_anchor_col(c, n - 1) {
            assert(cur == prev.push(n - 1));
            assert forall|i: int| 0 <= i < cur.len() implies 0 <= #[trigger] cur[i] < n by {
                if i < prev.len() {
                    assert(cur[i] == prev[i]);
                }
            }
            assert forall|i: int, j: int| 0 <= i < j < cur.len() implies cur[i] < cur[j] by {
                assert(cur[i] == prev[i]);
                if j < prev.len() {
                    assert(cur[j] == prev[j]);
                }
            }
        } else {
            assert(cur == prev);
        }
    }
}

/// Scanning `c` for anchor columns stays inside the image: the image is at
/// least one pixel wide, and whenever a column before the last starts with
/// the anchor colour, the image is tall enough to hold its closing row.
pub open spec fn scan_in_bounds(c: Raster) -> bool {
    &&& c.width >= 1
    &&& (c.width >= 2 ==> c.height >= 1)
    &&& (c.height >= CAPTURE_MAX_H + 2 || forall|x: int|
        0 <= x < c.width - 1 ==> #[trigger] c.px(x, 0) != anchor_spec())
}

/// Why a column frame cannot be read from an image.
#[derive(Clone, Copy, Debug, PartialEq, Eq, Structural)]
pub enum FrameError {
    /// No pixel has the anchor colour.
    NoKeyStart,
    /// A column that starts with the anchor colour runs past the bottom of
    /// the image (the image is too short to hold a column).
    ImageTooShort,
    /// No anchor-delimited column was found after the anchor.
    NoColumns,
    /// The first column does not stand for any colour.
    InvalidHeaderColumn,
    /// The first column stands for a colour other than the anchor.
    HeaderNotAnchor,
    /// A column does not stand for any colour.
    Column(ColumnError),
    /// There is no header column after the anchor column.
    NoHeader,
    /// The header announces more bytes than the data columns hold.
    SizeExceedsPayload,
    /// The checksum of the payload (`calc`) differs from the header's (`rx`).
    ChecksumMismatch { rx: u8, calc: u8 },
}

impl FrameError {
    /// The text the reader reports for this error.
    pub fn message(&self) -> (m: &'static str)
        ensures
            *self == FrameError::NoKeyStart ==> m@ == "MAKE ERROR HERE"@,
            *self == FrameError::ImageTooShort ==> m@ == "column runs past the bottom of the image"@,
            *self == FrameError::NoColumns ==> m@ == "no pixel columns"@,
            *self == FrameError::NoHeader ==> m@ == "no header column"@,
            *self == FrameError::SizeExceedsPayload ==> m@ == "header size exceeds the payload columns"@,
            *self == FrameError::InvalidHeaderColumn ==> m@ == "Invalid header_pixel column"@,
            *self == FrameError::HeaderNotAnchor ==> m@ == "rx_header_pixel was not 42069!"@,
            self is ChecksumMismatch ==> m@ == "Checksum mismatch"@,
            *self == FrameError::Column(ColumnError::NoMajority) ==> m@
                == "Not at least 3 pixels are the same"@,
            *self == FrameError::Column(ColumnError::PixelsEmpty) ==> m@ == "pixels array empty"@,
    {
        match self {
            FrameError::NoKeyStart => "MAKE ERROR HERE",
            FrameError::ImageTooShort => "column runs past the bottom of the image",
            FrameError::NoColumns => "no pixel columns",
            FrameError::InvalidHeaderColumn => "Invalid header_pixel column",
            FrameError::HeaderNotAnchor => "rx_header_pixel was not 42069!",
            FrameError::Column(e) => e.message(),
            FrameError::NoHeader => "no header column",
            FrameError::SizeExceedsPayload => "header size exceeds the payload columns",
            FrameError::ChecksumMismatch { .. } => "Checksum mismatch",
        }
    }
}

/// Collects, left to right, the columns of `img` (all but the last) that
/// start and end with the anchor colour, each with its x coordinate and its
/// data rows. Fails when such a column would run past the image.
pub fn anchor_columns(img: &Image) -> (r: Result<Vec<(u32, Vec<Pixel>)>, FrameError>)
    requires
        img.wf(),
    ensures
        r is Err <==> !scan_in_bounds(img@),
        r matches Err(e) ==> e == FrameError::ImageTooShort,
        r matches Ok(cols) ==> {
            &&& cols@.len() == anchor_xs(img@).len()
            &&& forall|i: int|
                0 <= i < cols@.len() ==> (#[trigger] cols@[i]).0 == anchor_xs(img@)[i]
                    && cols@[i].1@ == col_pixels(img@, anchor_xs(img@)[i])
        },
{
    if img.width == 0 {
        return Err(FrameError::ImageTooShort);
    }
    let header = anchor();
    let mut cols: Vec<(u32, Vec<Pixel>)> = Vec::new();
    let mut x: u32 = 0;
    while x < img.width - 1
        invariant
            img.wf(),
            img.width >= 1,
            x <= img.width - 1,
            header == anchor_spec(),
            img.height >= CAPTURE_MAX_H + 2 || forall|x2: int|
                0 <= x2 < x ==> #[trigger] img@.px(x2, 0) != anchor_spec(),
            x > 0 ==> img.height >= 1,
            cols@.len() == anchor_xs_upto(img@, x as int).len(),
            forall|i: int|
                0 <= i < cols@.len() ==> (#[trigger] cols@[i]).0 == anchor_xs_upto(img@, x as int)[i]
                    && cols@[i].1@ == col_pixels(img@, anchor_xs_upto(img@, x as int)[i]),
        decreases img.width - 1 - x,
    {
        if img.height == 0 {
            return Err(FrameError::ImageTooShort);
        }
        let top = img.get_pixel(x, 0);
        if top == header {
            if img.height < CAPTURE_MAX_H + 2 {
                return Err(FrameError::ImageTooShort);
            }
            let bottom = img.get_pixel(x, CAPTURE_MAX_H + 1);
            if bottom == header {
                let mut column: Vec<Pixel> = Vec::new();
                let mut y: u32 = 1;
                while y < CAPTURE_MAX_H
                    invariant
                        img.wf(),
                        img.height >= CAPTURE_MAX_H + 2,
                        x < img.width,
                        1 <= y <= CAPTURE_MAX_H,
                        column@.len() == y - 1,
                        forall|k: int| 0 <= k < y - 1 ==> #[trigger] column@[k] == img@.px(x as int, k + 1),
                    decreases CAPTURE_MAX_H - y,
                {
                    column.push(img.get_pixel(x, y));
                    y = y + 1;
                }
                assert(column@ =~= col_pixels(img@, x as int));
                cols.push((x, column));
            }
        }
        x = x + 1;
    }
    Ok(cols)
}

/// Entry `i` of the column list survives: it is the last entry, or the next
/// entry is not its right-hand neighbour. Of two adjacent columns (a
/// one-pixel column drawn two pixels wide) only the right one is kept.
pub open spec fn keeps(xs: Seq<int>, i: int) -> bool {
    i == xs.len() - 1 || xs[i] + 1 != xs[i + 1]
}

/// The positions, among the first `n` entries of `xs`, that survive.
pub open spec fn kept_upto(xs: Seq<int>, n: int) -> Seq<int>
    decreases n,
{
    if n <= 0 {
        seq![]
    } else if keeps(xs, n - 1) {
        kept_upto(xs, n - 1).push(n - 1)
    } else {
        kept_upto(xs, n - 1)
    }
}

/// The positions of `xs` that survive, in order.
pub open spec fn kept(xs: Seq<int>) -> Seq<int> {
    kept_upto(xs, xs.len() as int)
}

/// The kept positions all satisfy `keeps`.
pub proof fn lemma_kept_keeps(xs: Seq<int>, n: int)
    ensures
        forall|k: int| 0 <= k < kept_upto(xs, n).len() ==> keeps(xs, #[trigger] kept_upto(xs, n)[k]),
    decreases n,
{
    if n > 0 {
        lemma_kept_keeps(xs, n - 1);
        let prev = kept_upto(xs, n - 1);
        let cur = kept_upto(xs, n);
        if keeps(xs, n - 1) {
            assert forall|k: int| 0 <= k < cur.len() implies keeps(xs, #[trigger] cur[k]) by {
                if k < prev.len() {
                    assert(cur[k] == prev[k]);
                }
            }
        }
    }
}

/// Of columns listed left to right, the ones kept are never neighbours: a
/// column drawn two pixels wide is read once.
pub proof fn lemma_kept_not_adjacent(xs: Seq<int>)
    requires
        forall|i: int, j: int| 0 <= i < j < xs.len() ==> xs[i] < xs[j],
    ensures
        forall|k: int|
            0 <= k < kept(xs).len() - 1 ==> xs[#[trigger] kept(xs)[k]] + 1 < xs[kept(xs)[k + 1]],
{
    lemma_kept_sorted(xs, xs.len() as int);
    lemma_kept_keeps(xs, xs.len() as int);
    assert forall|k: int| 0 <= k < kept(xs).len() - 1 implies xs[#[trigger] kept(xs)[k]] + 1 < xs[kept(
        xs,
    )[k + 1]] by {
        let a = kept(xs)[k];
        let b = kept(xs)[k + 1];
        assert(a < b);
        assert(keeps(xs, a));
        assert(xs[a] < xs[a + 1]);
        if a + 1 < b {
            assert(xs[a + 1] < xs[b]);
        }
    }
}

/// A listed column is kept exactly when its right-hand neighbour is not
/// listed right after it: a column followed by any other column, or by none,
/// survives, and only one immediately followed by its neighbour is dropped.
/// The kept columns come in their listed order, each once.
pub proof fn lemma_kept_meaning(xs: Seq<int>)
    ensures
        forall|i: int|
            0 <= i < xs.len() ==> (kept(xs).contains(i) <==> (i == xs.len() - 1 || xs[i] + 1
                != xs[i + 1])),
        forall|k: int, l: int| 0 <= k < l < kept(xs).len() ==> kept(xs)[k] < kept(xs)[l],
        forall|k: int| 0 <= k < kept(xs).len() ==> 0 <= #[trigger] kept(xs)[k] < xs.len(),
{
    lemma_kept_contains(xs, xs.len() as int);
    lemma_kept_sorted(xs, xs.len() as int);
    assert forall|i: int| 0 <= i < xs.len() implies (kept(xs).contains(i) <==> (i == xs.len() - 1
        || xs[i] + 1 != xs[i + 1])) by {
        assert(kept(xs).contains(i) <==> keeps(xs, i));
    }
}

/// Position `i` is among the kept ones of the first `n` exactly when it is
/// below `n` and survives.
proof fn lemma_kept_contains(xs: Seq<int>, n: int)
    requires
        0 <= n <= xs.len(),
    ensures
        forall|i: int|
            0 <= i < xs.len() ==> (kept_upto(xs, n).contains(i) <==> (i < n && keeps(xs, i))),
    decreases n,
{
    lemma_kept_sorted(xs, n);
    if n > 0 {
        lemma_kept_contains(xs, n - 1);
        let prev = kept_upto(xs, n - 1);
        let cur = kept_upto(xs, n);
        assert forall|i: int| 0 <= i < xs.len() implies (cur.contains(i) <==> (i < n && keeps(xs, i))) by {
            if keeps(xs, n - 1) {
                assert(cur == prev.push(n - 1));
                if i == n - 1 {
                    assert(cur[cur.len() - 1] == i);
                } else if cur.contains(i) {
                    let k = choose|k: int| 0 <= k < cur.len() && cur[k] == i;
                    assert(prev[k] == i);
                } else if prev.contains(i) {
                    let k = choose|k: int| 0 <= k < prev.len() && prev[k] == i;
                    assert(cur[k] == i);
                }
            } else {
                assert(cur == prev);
            }
        }
    }
}

/// Drops every column whose right-hand neighbour is also in the list,
/// keeping the data rows of the others in order.
pub fn dedup_columns(cols: &Vec<(u32, Vec<Pixel>)>) -> (out: Vec<Vec<Pixel>>)
    requires
        forall|i: int| 0 <= i < cols@.len() ==> (#[trigger] cols@[i]).0 < u32::MAX,
    ensures
        ({
            let xs = cols@.map_values(|c: (u32, Vec<Pixel>)| c.0 as int);
            &&& out@.len() == kept(xs).len()
            &&& forall|i: int|
                0 <= i < out@.len() ==> (#[trigger] out@[i])@ == cols@[kept(xs)[i]].1@
        }),
{
    let ghost xs = cols@.map_values(|c: (u32, Vec<Pixel>)| c.0 as int);
    let mut out: Vec<Vec<Pixel>> = Vec::new();
    let mut i: usize = 0;
    while i < cols.len()
        invariant
            i <= cols@.len(),
            forall|k: int| 0 <= k < cols@.len() ==> (#[trigger] cols@[k]).0 < u32::MAX,
            xs == cols@.map_values(|c: (u32, Vec<Pixel>)| c.0 as int),
            out@.len() == kept_upto(xs, i as int).len(),
            forall|k: int| 0 <= k < kept_upto(xs, i as int).len() ==> 0 <= #[trigger] kept_upto(xs, i as int)[k] < i,
            forall|k: int|
                0 <= k < out@.len() ==> (#[trigger] out@[k])@ == cols@[kept_upto(xs, i as int)[k]].1@,
        decreases cols.len() - i,
    {
        if i == cols.len() - 1 || cols[i].0 + 1 != cols[i + 1].0 {
            assert(keeps(xs, i as int));
            out.push(cols[i].1.clone());
        } else {
            assert(!keeps(xs, i as int));
        }
        i = i + 1;
    }
    out
}

/// The colours the columns stand for, or the first column that stands for
/// none.
pub open spec fn votes(cols: Seq<Seq<Pixel>>) -> Result<Seq<Pixel>, ColumnError>
    decreases cols.len(),
{
    if cols.len() == 0 {
        Ok(seq![])
    } else {
        match votes(cols.drop_last()) {
            Err(e) => Err(e),
            Ok(ps) => match column_vote(cols.last()) {
                Ok(p) => Ok(ps.push(p)),
                Err(e) => Err(e),
            },
        }
    }
}

/// Reads the colour each column stands for; fails on the first column that
/// stands for none.
pub fn validate_columns(cols: &Vec<Vec<Pixel>>) -> (r: Result<Vec<Pixel>, ColumnError>)
    ensures
        match r {
            Ok(ps) => votes(cols@.map_values(|c: Vec<Pixel>| c@)) == Ok::<Seq<Pixel>, ColumnError>(ps@),
            Err(e) => votes(cols@.map_values(|c: Vec<Pixel>| c@)) == Err::<Seq<Pixel>, ColumnError>(e),
        },
{
    let ghost all = cols@.map_values(|c: Vec<Pixel>| c@);
    let mut out: Vec<Pixel> = Vec::new();
    let mut i: usize = 0;
    while i < cols.len()
        invariant
            i <= cols@.len(),
            all == cols@.map_values(|c: Vec<Pixel>| c@),
            votes(all.take(i as int)) == Ok::<Seq<Pixel>, ColumnError>(out@),
        decreases cols.len() - i,
    {
        assert(all.take(i + 1).drop_last() =~= all.take(i as int));
        assert(all.take(i + 1).last() == cols@[i as int]@);
        match pixel_validate_get2(&cols[i]) {
            Ok(p) => {
                out.push(p);
            },
            Err(e) => {
                proof {
                    lemma_votes_prefix_err(all, i as int + 1, e);
                }
                return Err(e);
            },
        }
        i = i + 1;
    }
    assert(all.take(i as int) =~= all);
    Ok(out)
}

/// A failure on a prefix is the failure of the whole list.
pub proof fn lemma_votes_prefix_err(cols: Seq<Seq<Pixel>>, n: int, e: ColumnError)
    requires
        0 <= n <= cols.len(),
        votes(cols.take(n)) == Err::<Seq<Pixel>, ColumnError>(e),
    ensures
        votes(cols) == Err::<Seq<Pixel>, ColumnError>(e),
    decreases cols.len() - n,
{
    if n < cols.len() {
        assert(cols.take(n + 1).drop_last() =~= cols.take(n));
        lemma_votes_prefix_err(cols, n + 1, e);
    } else {
        assert(cols.take(n) =~= cols);
    }
}

/// The kept positions among the first `n` entries are below `n`, increasing.
pub proof fn lemma_kept_sorted(xs: Seq<int>, n: int)
    ensures
        forall|k: int| 0 <= k < kept_upto(xs, n).len() ==> 0 <= #[trigger] kept_upto(xs, n)[k] < n,
        forall|k: int, l: int|
            0 <= k < l < kept_upto(xs, n).len() ==> kept_upto(xs, n)[k] < kept_upto(xs, n)[l],
    decreases n,
{
    if n > 0 {
        lemma_kept_sorted(xs, n - 1);
        let prev = kept_upto(xs, n - 1);
        let cur = kept_upto(xs, n);
        if keeps(xs, n - 1) {
            assert(cur == prev.push(n - 1));
            assert forall|k: int| 0 <= k < cur.len() implies 0 <= #[trigger] cur[k] < n by {
                if k < prev.len() {
                    assert(cur[k] == prev[k]);
                }
            }
            assert forall|k: int, l: int| 0 <= k < l < cur.len() implies cur[k] < cur[l] by {
                assert(cur[k] == prev[k]);
                if l < prev.len() {
                    assert(cur[l] == prev[l]);
                }
            }
        } else {
            assert(cur == prev);
        }
    }
}

/// The colour the reader looks for to find the frame: the anchor's.
pub open spec fn key_color() -> [u8; 3] {
    [42u8, 0u8, 69u8]
}

/// The data rows of the columns a frame is read from, in `c` (the capture
/// cut at the anchor): the anchor columns that survive deduplication.
pub open spec fn frame_columns(c: Raster) -> Seq<Seq<Pixel>> {
    let xs = anchor_xs(c);
    let ks = kept(xs);
    Seq::new(ks.len(), |i: int| col_pixels(c, xs[ks[i]]))
}

/// The capture cut so that the anchor pixel is its top-left corner.
pub open spec fn cut_at(img: Raster, x: int, y: int) -> Raster {
    crop_spec(img, x, y, img.width - x, img.height - y)
}

/// The colours of a column frame's columns (anchor, header, then data), or
/// why they cannot be read.
pub open spec fn payload_pixels_spec(img: Raster) -> Result<Seq<Pixel>, FrameError> {
    match key_start_spec(img, key_color()) {
        None => Err(FrameError::NoKeyStart),
        Some((x, y)) => {
            let c = cut_at(img, x, y);
            let cols = frame_columns(c);
            if !scan_in_bounds(c) {
                Err(FrameError::ImageTooShort)
            } else if cols.len() == 0 {
                Err(FrameError::NoColumns)
            } else if column_vote(cols[0]) is Err {
                Err(FrameError::InvalidHeaderColumn)
            } else if column_vote(cols[0]).unwrap() != anchor_spec() {
                Err(FrameError::HeaderNotAnchor)
            } else {
                match votes(cols) {
                    Ok(ps) => Ok(ps),
                    Err(e) => Err(FrameError::Column(e)),
                }
            }
        },
    }
}

/// What a column frame holds: its payload size and bytes, or why it cannot
/// be read. The second column is the header: its colour gives the payload
/// size and checksum; the columns after it hold the payload, three bytes each.
pub open spec fn frame_spec(img: Raster) -> Result<(u16, Seq<u8>), FrameError> {
    match payload_pixels_spec(img) {
        Err(e) => Err(e),
        Ok(pp) => if pp.len() < 2 {
            Err(FrameError::NoHeader)
        } else {
            let h = rgb_value(pp[1]);
            let size = header_size(h);
            let data = pp.subrange(2, pp.len() as int);
            if size > 3 * data.len() {
                Err(FrameError::SizeExceedsPayload)
            } else {
                let bytes = rgb_bytes(data).take(size);
                if checksum_of(bytes) != header_checksum(h) {
                    Err(
                        FrameError::ChecksumMismatch {
                            rx: header_checksum(h) as u8,
                            calc: checksum_of(bytes) as u8,
                        },
                    )
                } else {
                    Ok((size as u16, bytes))
                }
            }
        },
    }
}

/// A decoded column frame.
pub struct Frame {
    /// Payload size in bytes, from the header.
    pub size: u16,
    /// The payload.
    pub pixels: Vec<u8>,
    /// The capture the frame was read from.
    pub img: Image,
}

impl Frame {
    /// Reads the colours of a frame's columns from a capture: finds the
    /// anchor, cuts the capture there, collects the anchor-delimited columns,
    /// drops doubled ones, checks that the first stands for the anchor colour
    /// and reads the colour of each.
    pub fn get_payload_pixels(img: &Image) -> (r: Result<Vec<Pixel>, FrameError>)
        requires
            img.wf(),
        ensures
            match r {
                Ok(ps) => payload_pixels_spec(img@) == Ok::<Seq<Pixel>, FrameError>(ps@),
                Err(e) => payload_pixels_spec(img@) == Err::<Seq<Pixel>, FrameError>(e),
            },
    {
        let key: [u8; 3] = [42, 0, 69];
        assert(key == key_color());
        let loc = match find_key_start(img, key) {
            None => {
                return Err(FrameError::NoKeyStart);
            },
            Some(v) => v,
        };
        let img = img.crop(loc.0, loc.1, img.width - loc.0, img.height - loc.1);
        let header_pixel = anchor();
        let pixels_vec_tup = match anchor_columns(&img) {
            Err(e) => {
                return Err(e);
            },
            Ok(v) => v,
        };
        let ghost c = img@;
        let ghost xs = pixels_vec_tup@.map_values(|t: (u32, Vec<Pixel>)| t.0 as int);
        proof {
            lemma_anchor_xs_sorted(c, c.width - 1);
            assert(xs =~= anchor_xs(c));
            assert forall|i: int| 0 <= i < pixels_vec_tup@.len() implies (
            #[trigger] pixels_vec_tup@[i]).0 < u32::MAX by {
                assert(pixels_vec_tup@[i].0 == anchor_xs(c)[i]);
            }
        }
        let pixels_vec = dedup_columns(&pixels_vec_tup);
        proof {
            lemma_kept_sorted(xs, xs.len() as int);
            let cols = frame_columns(c);
            assert forall|i: int| 0 <= i < pixels_vec@.len() implies #[trigger] pixels_vec@[i]@
                == cols[i] by {
                let j = kept(xs)[i];
                assert(0 <= j < pixels_vec_tup@.len());
                assert(pixels_vec_tup@[j].1@ == col_pixels(c, anchor_xs(c)[j]));
            }
            assert(pixels_vec@.map_values(|v: Vec<Pixel>| v@) =~= cols);
        }
        if pixels_vec.len() == 0 {
            return Err(FrameError::NoColumns);
        }
        let rx_header_pixel = match pixel_validate_get2(&pixels_vec[0]) {
            Err(_) => {
                return Err(FrameError::InvalidHeaderColumn);
            },
            Ok(v) => v,
        };
        if rx_header_pixel != header_pixel {
            return Err(FrameError::HeaderNotAnchor);
        }
        match validate_columns(&pixels_vec) {
            Ok(v) => Ok(v),
            Err(e) => Err(FrameError::Column(e)),
        }
    }

    /// The first `size` bytes held by the data columns' colours.
    pub fn get_payload(myvec: Vec<Pixel>, size: u16) -> (bytes: Vec<u8>)
        requires
            size <= 3 * myvec.len(),
        ensures
            bytes@ == rgb_bytes(myvec@).take(size as int),
    {
        payload_bytes(&myvec, size)
    }

    /// Decodes a column frame from a capture: reads the columns' colours, the
    /// header (second column), the payload (the columns after it, cut to the
    /// header's size) and checks the payload against the header's checksum.
    pub fn new(img: Image) -> (r: Result<Frame, FrameError>)
        requires
            img.wf(),
        ensures
            match r {
                Ok(f) => frame_spec(img@) == Ok::<(u16, Seq<u8>), FrameError>((f.size, f.pixels@))
                    && f.img@ == img@,
                Err(e) => frame_spec(img@) == Err::<(u16, Seq<u8>), FrameError>(e),
            },
    {
        let payload_pixels = match Self::get_payload_pixels(&img) {
            Err(e) => {
                return Err(e);
            },
            Ok(v) => v,
        };
        if payload_pixels.len() < 2 {
            return Err(FrameError::NoHeader);
        }
        let header = color_to_integer(&payload_pixels[1]);
        let (size, checksum_rx) = decode_header(header);
        let mut data: Vec<Pixel> = Vec::new();
        let mut i: usize = 2;
        while i < payload_pixels.len()
            invariant
                2 <= i <= payload_pixels@.len(),
                data@ == payload_pixels@.subrange(2, i as int),
            decreases payload_pixels.len() - i,
        {
            data.push(payload_pixels[i]);
            i = i + 1;
        }
        if (size as usize + 2) / 3 > data.len() {
            return Err(FrameError::SizeExceedsPayload);
        }
        let pixels = Self::get_payload(data, size);
        let checksum_calc = checksum(&pixels);
        if checksum_rx != checksum_calc {
            return Err(FrameError::ChecksumMismatch { rx: checksum_rx, calc: checksum_calc });
        }
        Ok(Frame { size, pixels, img })
    }
}

} // verus!

verus! {

/// The colours of the columns a payload is drawn as: the anchor, the
/// header, then three payload bytes per column.
pub open spec fn frame_colours(bs: Seq<u8>) -> Seq<Pixel> {
    seq![anchor_spec(), header_pixel_for(bs)] + pixels_for_bytes(bs)
}

/// The pixel at `(x, y)` of columns drawn one pixel apart on `background`:
/// each column is an anchor row, `CAPTURE_MAX_H` rows of its colour and an
/// anchor row.
pub open spec fn drawn_px(cols: Seq<Pixel>, background: Pixel, x: int, y: int) -> Pixel {
    if x % 2 == 1 {
        background
    } else if y == 0 || y == CAPTURE_MAX_H + 1 {
        anchor_spec()
    } else {
        cols[x / 2]
    }
}

/// The image of columns drawn one pixel apart on `background`, from the
/// top-left corner.
pub open spec fn draw_columns(cols: Seq<Pixel>, background: Pixel) -> Raster {
    let w: int = 2 * (cols.len() as int);
    let h: int = CAPTURE_MAX_H + 2;
    Raster {
        width: w as nat,
        height: h as nat,
        pixels: Seq::new((w * h) as nat, |k: int| drawn_px(cols, background, k % w, k / w)),
    }
}

/// Drawn images are well formed, with the drawn pixel at each position.
proof fn lemma_draw_px(cols: Seq<Pixel>, background: Pixel, x: int, y: int)
    requires
        0 <= x < 2 * cols.len(),
        0 <= y < CAPTURE_MAX_H + 2,
    ensures
        draw_columns(cols, background).wf(),
        draw_columns(cols, background).px(x, y) == drawn_px(cols, background, x, y),
{
    let w: int = 2 * (cols.len() as int);
    let h: int = CAPTURE_MAX_H + 2;
    crate::raster::lemma_idx_bound(w, h, x, y);
    vstd::arithmetic::div_mod::lemma_fundamental_div_mod_converse(y * w + x, w, y, x);
}

/// In a drawn image, the anchor columns are the even ones.
proof fn lemma_drawn_anchor_xs(cols: Seq<Pixel>, background: Pixel, n: int)
    requires
        background != anchor_spec(),
        0 <= n <= 2 * cols.len() - 1,
    ensures
        anchor_xs_upto(draw_columns(cols, background), n) == Seq::new(
            ((n + 1) / 2) as nat,
            |j: int| 2 * j,
        ),
    decreases n,
{
    let r = draw_columns(cols, background);
    if n == 0 {
        assert(anchor_xs_upto(r, 0) =~= Seq::new(0, |j: int| 2 * j));
    } else {
        lemma_drawn_anchor_xs(cols, background, n - 1);
        lemma_draw_px(cols, background, n - 1, 0);
        lemma_draw_px(cols, background, n - 1, CAPTURE_MAX_H + 1);
        if (n - 1) % 2 == 0 {
            assert(is_anchor_col(r, n - 1));
            assert(anchor_xs_upto(r, n) =~= Seq::new(((n + 1) / 2) as nat, |j: int| 2 * j));
        } else {
            assert(!is_anchor_col(r, n - 1));
            assert(anchor_xs_upto(r, n) =~= Seq::new(((n + 1) / 2) as nat, |j: int| 2 * j));
        }
    }
}

/// When no two listed columns are neighbours, all of them are kept.
proof fn lemma_kept_all(xs: Seq<int>, n: int)
    requires
        0 <= n <= xs.len(),
        forall|i: int| 0 <= i < xs.len() - 1 ==> #[trigger] xs[i] + 1 != xs[i + 1],
    ensures
        kept_upto(xs, n) == Seq::new(n as nat, |i: int| i),
    decreases n,
{
    if n == 0 {
        assert(kept_upto(xs, 0) =~= Seq::new(0, |i: int| i));
    } else {
        lemma_kept_all(xs, n - 1);
        assert(keeps(xs, n - 1));
        assert(kept_upto(xs, n) =~= Seq::new(n as nat, |i: int| i));
    }
}

/// Columns that each stand for a colour stand, together, for those colours.
proof fn lemma_votes_ok(cs: Seq<Seq<Pixel>>, ps: Seq<Pixel>)
    requires
        cs.len() == ps.len(),
        forall|j: int| 0 <= j < cs.len() ==> column_vote(#[trigger] cs[j]) == Ok::<Pixel, ColumnError>(ps[j]),
    ensures
        votes(cs) == Ok::<Seq<Pixel>, ColumnError>(ps),
    decreases cs.len(),
{
    if cs.len() > 0 {
        let cs2 = cs.drop_last();
        let ps2 = ps.drop_last();
        assert forall|j: int| 0 <= j < cs2.len() implies column_vote(#[trigger] cs2[j]) == Ok::<
            Pixel,
            ColumnError,
        >(ps2[j]) by {
            assert(cs2[j] == cs[j]);
        }
        lemma_votes_ok(cs2, ps2);
        assert(column_vote(cs[cs.len() - 1]) == Ok::<Pixel, ColumnError>(ps[ps.len() - 1]));
        assert(ps2.push(ps.last()) =~= ps);
    } else {
        assert(ps =~= seq![]);
    }
}

/// What the reader decodes from columns drawn one pixel apart: the colour of
/// each column, provided the background differs from the anchor.
pub proof fn lemma_drawn_payload_pixels(cols: Seq<Pixel>, background: Pixel)
    requires
        background != anchor_spec(),
        cols.len() >= 1,
        cols[0] == anchor_spec(),
    ensures
        payload_pixels_spec(draw_columns(cols, background)) == Ok::<Seq<Pixel>, FrameError>(cols),
{
    let r = draw_columns(cols, background);
    let w: int = 2 * (cols.len() as int);
    let h: int = CAPTURE_MAX_H + 2;
    lemma_draw_px(cols, background, 0, 0);
    // The key pixel is the top-left corner.
    assert(key_color()@[0] == 42 && key_color()@[1] == 0 && key_color()@[2] == 69);
    assert(is_key_start(r, key_color(), 0, 0));
    let (kx, ky) = choose|a: int, b: int| is_key_start(r, key_color(), a, b);
    lemma_key_start_unique(r, key_color(), kx, ky, 0, 0);
    assert(key_start_spec(r, key_color()) == Some((0int, 0int)));
    // Cutting there leaves the image as it is.
    let c = cut_at(r, 0, 0);
    crate::raster::lemma_crop_px(r, 0, 0, w, h, 0, 0);
    assert forall|x: int, y: int| 0 <= x < c.width && 0 <= y < c.height implies #[trigger] c.px(x, y)
        == r.px(x, y) by {
        crate::raster::lemma_crop_px(r, 0, 0, w, h, x, y);
    }
    crate::raster::lemma_raster_ext(c, r);
    assert(c == r);
    // Every even column, and only those, is delimited by the anchor.
    assert(scan_in_bounds(r));
    lemma_drawn_anchor_xs(cols, background, w - 1);
    let xs = anchor_xs(r);
    assert(xs.len() == cols.len());
    assert forall|i: int| 0 <= i < xs.len() - 1 implies #[trigger] xs[i] + 1 != xs[i + 1] by {}
    lemma_kept_all(xs, xs.len() as int);
    let fc = frame_columns(r);
    assert(fc.len() == cols.len());
    assert forall|j: int| 0 <= j < fc.len() implies column_vote(#[trigger] fc[j]) == Ok::<
        Pixel,
        ColumnError,
    >(cols[j]) by {
        assert(kept(xs)[j] == j);
        assert(xs[j] == 2 * j);
        assert forall|k: int| 0 <= k < CAPTURE_MAX_H - 1 implies #[trigger] col_pixels(r, 2 * j)[k]
            == cols[j] by {
            lemma_draw_px(cols, background, 2 * j, k + 1);
        }
        assert(fc[j] =~= Seq::new((CAPTURE_MAX_H - 1) as nat, |k: int| cols[j]));
        crate::pixel::lemma_vote_uniform((CAPTURE_MAX_H - 1) as nat, cols[j]);
    }
    lemma_votes_ok(fc, cols);
    assert(column_vote(fc[0]) == Ok::<Pixel, ColumnError>(anchor_spec()));
}

/// A payload drawn as a column frame (anchor, header, then the payload's
/// bytes three per column, one pixel apart on a background other than the
/// anchor colour) is read back as that payload.
pub proof fn lemma_drawn_frame_decodes(bs: Seq<u8>, background: Pixel)
    requires
        bs.len() <= 0xffff,
        background != anchor_spec(),
    ensures
        frame_spec(draw_columns(frame_colours(bs), background)) == Ok::<(u16, Seq<u8>), FrameError>(
            (bs.len() as u16, bs),
        ),
{
    let cols = frame_colours(bs);
    lemma_drawn_payload_pixels(cols, background);
    assert(cols[1] == header_pixel_for(bs));
    crate::payload::lemma_header_pixel_for(bs);
    let data = cols.subrange(2, cols.len() as int);
    assert(data =~= pixels_for_bytes(bs));
    crate::payload::lemma_payload_roundtrip(bs);
}

/// What a decoded column frame is, in terms of its columns' colours (anchor,
/// header, data): it decodes exactly when the header's size (red * 256 +
/// green) fits in the data columns and the payload's byte sum modulo 256 is
/// the header's blue channel; the payload is then the first `size` red, green
/// and blue bytes of the data columns, whatever columns follow them.
pub proof fn lemma_frame_meaning(img: Raster)
    ensures
        frame_spec(img) is Ok ==> {
            let (size, bytes) = frame_spec(img)->Ok_0;
            &&& payload_pixels_spec(img) is Ok
            &&& payload_pixels_spec(img)->Ok_0.len() >= 2
            &&& ({
                let pp = payload_pixels_spec(img)->Ok_0;
                &&& size == pp[1].r * 256 + pp[1].g
                &&& bytes.len() == size
                &&& checksum_of(bytes) == pp[1].b
                &&& forall|k: int| 0 <= k < size ==> #[trigger] bytes[k] == channel(pp[2 + k / 3], k % 3)
            })
        },
        payload_pixels_spec(img) is Ok ==> {
            let pp = payload_pixels_spec(img)->Ok_0;
            let size = pp[1].r * 256 + pp[1].g;
            let bytes = Seq::new(size as nat, |k: int| channel(pp[2 + k / 3], k % 3));
            pp.len() >= 2 && size <= 3 * (pp.len() - 2) ==> {
                &&& checksum_of(bytes) == pp[1].b ==> frame_spec(img) == Ok::<(u16, Seq<u8>), FrameError>(
                    (size as u16, bytes),
                )
                &&& checksum_of(bytes) != pp[1].b ==> frame_spec(img) == Err::<(u16, Seq<u8>), FrameError>(
                    FrameError::ChecksumMismatch { rx: pp[1].b, calc: checksum_of(bytes) as u8 },
                )
            }
        },
{
    if payload_pixels_spec(img) is Ok {
        let pp = payload_pixels_spec(img)->Ok_0;
        if pp.len() >= 2 {
            crate::pixel::lemma_header_pixel_fields(pp[1]);
            let size = pp[1].r * 256 + pp[1].g;
            let data = pp.subrange(2, pp.len() as int);
            crate::payload::lemma_rgb_bytes(data);
            let bytes = Seq::new(size as nat, |k: int| channel(pp[2 + k / 3], k % 3));
            if size <= 3 * data.len() {
                assert forall|k: int| 0 <= k < size implies #[trigger] rgb_bytes(data).take(size)[k]
                    == bytes[k] by {
                    assert(rgb_bytes(data)[k] == channel(data[k / 3], k % 3));
                }
                assert(rgb_bytes(data).take(size) =~= bytes);
                assert(0 <= checksum_of(bytes) < 256);
            }
        }
    }
}

/// A payload drawn as a column frame and followed by any further columns is
/// read back as that payload: columns after the payload's are ignored.
pub proof fn lemma_drawn_frame_trailing_columns(bs: Seq<u8>, extra: Seq<Pixel>, background: Pixel)
    requires
        bs.len() <= 0xffff,
        background != anchor_spec(),
    ensures
        frame_spec(draw_columns(frame_colours(bs) + extra, background)) == Ok::<(u16, Seq<u8>), FrameError>(
            (bs.len() as u16, bs),
        ),
{
    let cols = frame_colours(bs) + extra;
    let img = draw_columns(cols, background);
    lemma_drawn_payload_pixels(cols, background);
    lemma_frame_meaning(img);
    assert(cols[1] == header_pixel_for(bs));
    crate::payload::lemma_header_pixel_for(bs);
    crate::pixel::lemma_header_pixel_fields(header_pixel_for(bs));
    let pfb = pixels_for_bytes(bs);
    crate::payload::lemma_payload_roundtrip(bs);
    crate::payload::lemma_rgb_bytes(pfb);
    let size = cols[1].r * 256 + cols[1].g;
    assert(size == bs.len());
    let bytes = Seq::new(size as nat, |k: int| channel(cols[2 + k / 3], k % 3));
    assert forall|k: int| 0 <= k < size implies #[trigger] bytes[k] == bs[k] by {
        assert(rgb_bytes(pfb).take(bs.len() as int)[k] == bs[k]);
        assert(rgb_bytes(pfb)[k] == channel(pfb[k / 3], k % 3));
        assert(cols[2 + k / 3] == pfb[k / 3]);
    }
    assert(bytes =~= bs);
}

} // verus!

verus! {

/// A pixel of the given colour means there is a first such pixel.
pub proof fn lemma_first_match_exists(r: Raster, color: [u8; 3], x: int, y: int)
    requires
        0 <= x < r.width,
        0 <= y < r.height,
        rgb_matches(r.px(x, y), color),
    ensures
        exists|a: int, b: int| is_key_start(r, color, a, b),
    decreases y * r.width + x,
{
    let w = r.width as int;
    if !is_key_start(r, color, x, y) {
        let (x2, y2) = choose|x2: int, y2: int|
            0 <= x2 < r.width && 0 <= y2 < r.height && scanned_before(x2, y2, x, y) && rgb_matches(
                r.px(x2, y2),
                color,
            );
        assert(0 <= y2 * w + x2 < y * w + x) by (nonlinear_arith)
            requires
                0 <= x2 < w,
                0 <= x < w,
                0 <= y2,
                y2 < y || (y2 == y && x2 < x),
        ;
        lemma_first_match_exists(r, color, x2, y2);
    }
}

/// `big` is `r` with `dx` columns added on the left and `dy` rows added on
/// top, none of the added pixels having the key colour.
pub open spec fn padded_by(big: Raster, r: Raster, dx: int, dy: int) -> bool {
    &&& r.wf()
    &&& big.wf()
    &&& dx >= 0
    &&& dy >= 0
    &&& big.width == r.width + dx
    &&& big.height == r.height + dy
    &&& forall|x: int, y: int|
        0 <= x < r.width && 0 <= y < r.height ==> big.px(x + dx, y + dy) == #[trigger] r.px(x, y)
    &&& forall|x: int, y: int|
        0 <= x < big.width && 0 <= y < big.height && (x < dx || y < dy) ==> !rgb_matches(
            #[trigger] big.px(x, y),
            key_color(),
        )
}

/// Where a column frame sits in the capture does not matter: adding columns
/// on the left or rows on top, in colours other than the key colour, leaves
/// what is read unchanged.
pub proof fn lemma_frame_position_free(big: Raster, r: Raster, dx: int, dy: int)
    requires
        padded_by(big, r, dx, dy),
    ensures
        payload_pixels_spec(big) == payload_pixels_spec(r),
        frame_spec(big) == frame_spec(r),
{
    let kc = key_color();
    if exists|x: int, y: int| 0 <= x < r.width && 0 <= y < r.height && rgb_matches(r.px(x, y), kc) {
        let (x0, y0) = choose|x: int, y: int|
            0 <= x < r.width && 0 <= y < r.height && rgb_matches(r.px(x, y), kc);
        lemma_first_match_exists(r, kc, x0, y0);
        let (kx, ky) = choose|a: int, b: int| is_key_start(r, kc, a, b);
        assert(key_start_spec(r, kc) == Some((kx, ky)));
        // The key pixel moves by the padding.
        assert(big.px(kx + dx, ky + dy) == r.px(kx, ky));
        assert forall|x2: int, y2: int|
            0 <= x2 < big.width && 0 <= y2 < big.height && scanned_before(
                x2,
                y2,
                kx + dx,
                ky + dy,
            ) implies !rgb_matches(#[trigger] big.px(x2, y2), kc) by {
            if x2 >= dx && y2 >= dy {
                assert(big.px(x2, y2) == r.px(x2 - dx, y2 - dy));
                assert(scanned_before(x2 - dx, y2 - dy, kx, ky));
            }
        }
        assert(is_key_start(big, kc, kx + dx, ky + dy));
        let (bx, by) = choose|a: int, b: int| is_key_start(big, kc, a, b);
        lemma_key_start_unique(big, kc, bx, by, kx + dx, ky + dy);
        assert(key_start_spec(big, kc) == Some((kx + dx, ky + dy)));
        // Cut at the key pixel, both captures are the same image.
        let cb = cut_at(big, kx + dx, ky + dy);
        let cr = cut_at(r, kx, ky);
        crate::raster::lemma_crop_px(big, kx + dx, ky + dy, big.width - (kx + dx), big.height - (ky + dy), 0, 0);
        crate::raster::lemma_crop_px(r, kx, ky, r.width - kx, r.height - ky, 0, 0);
        assert forall|i: int, j: int| 0 <= i < cb.width && 0 <= j < cb.height implies #[trigger] cb.px(i, j)
            == cr.px(i, j) by {
            crate::raster::lemma_crop_px(
                big,
                kx + dx,
                ky + dy,
                big.width - (kx + dx),
                big.height - (ky + dy),
                i,
                j,
            );
            crate::raster::lemma_crop_px(r, kx, ky, r.width - kx, r.height - ky, i, j);
            assert(big.px(kx + i + dx, ky + j + dy) == r.px(kx + i, ky + j));
        }
        crate::raster::lemma_raster_ext(cb, cr);
    } else {
        assert forall|a: int, b: int| !is_key_start(big, kc, a, b) by {
            if is_key_start(big, kc, a, b) {
                if a >= dx && b >= dy {
                    assert(big.px(a, b) == r.px(a - dx, b - dy));
                }
            }
        }
        assert forall|a: int, b: int| !is_key_start(r, kc, a, b) by {}
        assert(key_start_spec(big, kc) is None);
        assert(key_start_spec(r, kc) is None);
    }
}

} // verus!

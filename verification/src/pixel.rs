//! Pixels, the header word they carry, and the per-column majority vote.

use vstd::prelude::*;

verus! {

/// One RGBA pixel with 8-bit channels, laid out like `image::Rgba<u8>`.
#[derive(Clone, Copy, Debug, PartialEq, Eq, Structural)]
pub struct Pixel {
    pub r: u8,
    pub g: u8,
    pub b: u8,
    pub a: u8,
}

impl Pixel {
    pub fn new(r: u8, g: u8, b: u8, a: u8) -> (p: Pixel)
        ensures
            p == (Pixel { r, g, b, a }),
    {
        Pixel { r, g, b, a }
    }
}

/// The value of the red, green and blue channels read as one 24-bit number.
pub open spec fn rgb_value(p: Pixel) -> int {
    p.r * 65536 + p.g * 256 + p.b
}

/// The size field of a header word: bits 8 to 23.
pub open spec fn header_size(header: int) -> int {
    (header / 256) % 65536
}

/// The checksum field of a header word: bits 0 to 7.
pub open spec fn header_checksum(header: int) -> int {
    header % 256
}

/// Reads the red, green and blue channels of a pixel as one number,
/// red being the most significant.
pub fn color_to_integer(pixel: &Pixel) -> (v: u32)
    ensures
        v == rgb_value(*pixel),
{
    let r = pixel.r as u32;
    let g = pixel.g as u32;
    let b = pixel.b as u32;
    r * 256 * 256 + g * 256 + b
}

/// Splits a header word into the payload size (in bytes) and its checksum.
pub fn decode_header(header: u32) -> (r: (u16, u8))
    ensures
        r.0 == header_size(header as int),
        r.1 == header_checksum(header as int),
{
    assert(header & 0xFF == header % 256) by (bit_vector);
    assert((header >> 8) & 0xFFFF == (header / 256) % 65536) by (bit_vector);
    let checksum = (header & 0xFF) as u8;
    let size = ((header >> 8) & 0xFFFF) as u16;
    (size, checksum)
}

/// A header pixel carries the payload size in its red and green channels
/// (red high) and the checksum in its blue channel.
pub proof fn lemma_header_pixel_fields(p: Pixel)
    ensures
        header_size(rgb_value(p)) == p.r * 256 + p.g,
        header_checksum(rgb_value(p)) == p.b,
{
    let r = p.r as int;
    let g = p.g as int;
    let b = p.b as int;
    assert((r * 65536 + g * 256 + b) / 256 == r * 256 + g) by (nonlinear_arith)
        requires
            0 <= b < 256,
    ;
    assert((r * 65536 + g * 256 + b) % 256 == b) by (nonlinear_arith)
        requires
            0 <= b < 256,
    ;
    assert((r * 256 + g) % 65536 == r * 256 + g) by (nonlinear_arith)
        requires
            0 <= r < 256,
            0 <= g < 256,
    ;
}


/// Why a column of pixels yields no value.
#[derive(Clone, Copy, Debug, PartialEq, Eq, Structural)]
pub enum ColumnError {
    /// The column holds no pixel at all.
    PixelsEmpty,
    /// No pixel value occurs at least three times in the column.
    NoMajority,
}

impl ColumnError {
    /// The text the reader reports for this error.
    pub fn message(&self) -> (m: &'static str)
        ensures
            *self == ColumnError::PixelsEmpty ==> m@ == "pixels array empty"@,
            *self == ColumnError::NoMajority ==> m@ == "Not at least 3 pixels are the same"@,
    {
        match self {
            ColumnError::PixelsEmpty => "pixels array empty",
            ColumnError::NoMajority => "Not at least 3 pixels are the same",
        }
    }
}

/// How many times `p` occurs in `s`.
pub open spec fn count_in(s: Seq<Pixel>, p: Pixel) -> nat
    decreases s.len(),
{
    if s.len() == 0 {
        0
    } else {
        count_in(s.drop_last(), p) + if s.last() == p { 1nat } else { 0nat }
    }
}

/// `p` comes before `q` in channel order (red, then green, blue, alpha).
pub open spec fn pixel_lt(p: Pixel, q: Pixel) -> bool {
    p.r < q.r || (p.r == q.r && (p.g < q.g || (p.g == q.g && (p.b < q.b || (p.b == q.b
        && p.a < q.a)))))
}

/// In `s`, value `p` ranks at least as high as `q`: it occurs more often, or
/// as often and is `q` or comes before it in channel order.
pub open spec fn ranks_over(s: Seq<Pixel>, p: Pixel, q: Pixel) -> bool {
    count_in(s, p) > count_in(s, q) || (count_in(s, p) == count_in(s, q) && (p == q || pixel_lt(
        p,
        q,
    )))
}

/// `p` is the value of `s` that ranks highest: the most frequent one, and
/// among equally frequent ones the first in channel order.
pub open spec fn is_vote(s: Seq<Pixel>, p: Pixel) -> bool {
    &&& s.contains(p)
    &&& forall|j: int| 0 <= j < s.len() ==> ranks_over(s, p, #[trigger] s[j])
}

/// The value a column stands for: its most frequent pixel (among equally
/// frequent ones, the first in channel order), provided it occurs at least
/// three times.
pub open spec fn column_vote(s: Seq<Pixel>) -> Result<Pixel, ColumnError> {
    if s.len() == 0 {
        Err(ColumnError::PixelsEmpty)
    } else {
        let p = choose|p: Pixel| is_vote(s, p);
        if count_in(s, p) >= 3 {
            Ok(p)
        } else {
            Err(ColumnError::NoMajority)
        }
    }
}

/// Only one value ranks highest.
pub proof fn lemma_vote_unique(s: Seq<Pixel>, p: Pixel, q: Pixel)
    requires
        is_vote(s, p),
        is_vote(s, q),
    ensures
        p == q,
{
    let i = choose|i: int| 0 <= i < s.len() && s[i] == q;
    let j = choose|j: int| 0 <= j < s.len() && s[j] == p;
    assert(ranks_over(s, p, s[i]));
    assert(ranks_over(s, q, s[j]));
}

/// The vote of a column is fixed by any value that ranks highest.
pub proof fn lemma_column_vote_at(s: Seq<Pixel>, p: Pixel)
    requires
        is_vote(s, p),
    ensures
        column_vote(s) == (if count_in(s, p) >= 3 {
            Ok::<Pixel, ColumnError>(p)
        } else {
            Err::<Pixel, ColumnError>(ColumnError::NoMajority)
        }),
{
    let c = choose|c: Pixel| is_vote(s, c);
    lemma_vote_unique(s, c, p);
}

/// Ranking is transitive.
proof fn lemma_ranks_trans(s: Seq<Pixel>, p: Pixel, q: Pixel, r: Pixel)
    requires
        ranks_over(s, p, q),
        ranks_over(s, q, r),
    ensures
        ranks_over(s, p, r),
{
}

/// Of two values, one ranks at least as high as the other.
proof fn lemma_ranks_total(s: Seq<Pixel>, p: Pixel, q: Pixel)
    ensures
        ranks_over(s, p, q) || ranks_over(s, q, p),
{
}

/// Among the first `n` positions of a non-empty column, one holds a value
/// that ranks over all of them.
proof fn lemma_best_upto(s: Seq<Pixel>, n: int) -> (b: int)
    requires
        1 <= n <= s.len(),
    ensures
        0 <= b < n,
        forall|j: int| 0 <= j < n ==> ranks_over(s, s[b], #[trigger] s[j]),
    decreases n,
{
    if n == 1 {
        0
    } else {
        let b0 = lemma_best_upto(s, n - 1);
        lemma_ranks_total(s, s[n - 1], s[b0]);
        if ranks_over(s, s[n - 1], s[b0]) {
            assert forall|j: int| 0 <= j < n implies ranks_over(s, s[n - 1], #[trigger] s[j]) by {
                if j < n - 1 {
                    lemma_ranks_trans(s, s[n - 1], s[b0], s[j]);
                }
            }
            n - 1
        } else {
            b0
        }
    }
}

/// A non-empty column has a value that ranks highest.
pub proof fn lemma_vote_exists(s: Seq<Pixel>)
    requires
        s.len() > 0,
    ensures
        exists|p: Pixel| is_vote(s, p),
{
    let b = lemma_best_upto(s, s.len() as int);
    assert(is_vote(s, s[b]));
}

/// `count_in` is the multiplicity in the column's multiset.
pub proof fn lemma_count_in_multiset(s: Seq<Pixel>, p: Pixel)
    ensures
        count_in(s, p) == s.to_multiset().count(p),
    decreases s.len(),
{
    s.to_multiset_ensures();
    if s.len() == 0 {
        assert(!s.contains(p));
    } else {
        let prev = s.drop_last();
        lemma_count_in_multiset(prev, p);
        prev.to_multiset_ensures();
        assert(prev.push(s.last()) =~= s);
    }
}

/// The vote of a column depends only on how often each value occurs in it,
/// not on the order of its pixels.
pub proof fn lemma_vote_order_free(s1: Seq<Pixel>, s2: Seq<Pixel>)
    requires
        s1.to_multiset() == s2.to_multiset(),
    ensures
        column_vote(s1) == column_vote(s2),
{
    s1.to_multiset_ensures();
    s2.to_multiset_ensures();
    assert forall|p: Pixel| count_in(s1, p) == count_in(s2, p) by {
        lemma_count_in_multiset(s1, p);
        lemma_count_in_multiset(s2, p);
    }
    if s1.len() > 0 {
        lemma_vote_exists(s1);
        let p = choose|p: Pixel| is_vote(s1, p);
        assert(s1.to_multiset().count(p) > 0);
        assert(s2.contains(p));
        assert forall|j: int| 0 <= j < s2.len() implies ranks_over(s2, p, #[trigger] s2[j]) by {
            let q = s2[j];
            assert(s2.contains(q));
            assert(s2.to_multiset().count(q) > 0);
            assert(s1.contains(q));
            let i = choose|i: int| 0 <= i < s1.len() && s1[i] == q;
            assert(ranks_over(s1, p, s1[i]));
        }
        lemma_column_vote_at(s1, p);
        lemma_column_vote_at(s2, p);
    }
}

/// A column of `n` equal pixels holds that pixel `n` times.
pub proof fn lemma_count_uniform(n: nat, p: Pixel)
    ensures
        count_in(Seq::new(n, |k: int| p), p) == n,
    decreases n,
{
    if n > 0 {
        lemma_count_uniform((n - 1) as nat, p);
        assert(Seq::new(n, |k: int| p).drop_last() =~= Seq::new((n - 1) as nat, |k: int| p));
    }
}

/// A column of at least three equal pixels stands for that pixel.
pub proof fn lemma_vote_uniform(n: nat, p: Pixel)
    requires
        n >= 3,
    ensures
        column_vote(Seq::new(n, |k: int| p)) == Ok::<Pixel, ColumnError>(p),
{
    let s = Seq::new(n, |k: int| p);
    lemma_count_uniform(n, p);
    assert(s[0] == p);
    assert(is_vote(s, p));
    lemma_column_vote_at(s, p);
}

/// `p` comes before `q` in channel order.
fn pixel_before(p: Pixel, q: Pixel) -> (r: bool)
    ensures
        r == pixel_lt(p, q),
{
    p.r < q.r || (p.r == q.r && (p.g < q.g || (p.g == q.g && (p.b < q.b || (p.b == q.b
        && p.a < q.a)))))
}

/// Counts the occurrences of `p` in `pixels`.
fn count_pixel(pixels: &Vec<Pixel>, p: Pixel) -> (n: usize)
    ensures
        n == count_in(pixels@, p),
        n <= pixels.len(),
{
    let mut n: usize = 0;
    let mut i: usize = 0;
    while i < pixels.len()
        invariant
            i <= pixels.len(),
            n == count_in(pixels@.take(i as int), p),
            n <= i,
        decreases pixels.len() - i,
    {
        assert(pixels@.take(i + 1).drop_last() =~= pixels@.take(i as int));
        if pixels[i] == p {
            n = n + 1;
        }
        i = i + 1;
    }
    assert(pixels@.take(i as int) =~= pixels@);
    n
}

/// Returns the value a column of pixels stands for: the most frequent pixel
/// (among equally frequent ones, the first in channel order) when it occurs
/// at least three times.
pub fn pixel_validate_get2(pixels: &Vec<Pixel>) -> (r: Result<Pixel, ColumnError>)
    ensures
        r == column_vote(pixels@),
{
    if pixels.len() < 1 {
        return Err(ColumnError::PixelsEmpty);
    }
    let mut best: usize = 0;
    let mut best_count: usize = count_pixel(pixels, pixels[0]);
    let mut i: usize = 1;
    while i < pixels.len()
        invariant
            1 <= i <= pixels.len(),
            best < i,
            best_count == count_in(pixels@, pixels@[best as int]),
            forall|j: int| 0 <= j < i ==> ranks_over(pixels@, pixels@[best as int], #[trigger] pixels@[j]),
        decreases pixels.len() - i,
    {
        let c = count_pixel(pixels, pixels[i]);
        if c > best_count || (c == best_count && pixel_before(pixels[i], pixels[best])) {
            proof {
                assert forall|j: int| 0 <= j < i + 1 implies ranks_over(
                    pixels@,
                    pixels@[i as int],
                    #[trigger] pixels@[j],
                ) by {
                    if j < i {
                        lemma_ranks_trans(pixels@, pixels@[i as int], pixels@[best as int], pixels@[j]);
                    }
                }
            }
            best = i;
            best_count = c;
        } else {
            proof {
                lemma_ranks_total(pixels@, pixels@[i as int], pixels@[best as int]);
            }
        }
        i = i + 1;
    }
    proof {
        assert(is_vote(pixels@, pixels@[best as int]));
        lemma_column_vote_at(pixels@, pixels@[best as int]);
    }
    if best_count >= 3 {
        Ok(pixels[best])
    } else {
        Err(ColumnError::NoMajority)
    }
}

} // verus!

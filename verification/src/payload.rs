//! Payload bytes: three bytes per pixel (red, green, blue) and an 8-bit
//! checksum that is the byte sum modulo 256.

use vstd::prelude::*;
use crate::pixel::Pixel;

verus! {

/// The sum of all bytes of `bs`.
pub open spec fn byte_sum(bs: Seq<u8>) -> nat
    decreases bs.len(),
{
    if bs.len() == 0 {
        0
    } else {
        byte_sum(bs.drop_last()) + bs.last() as nat
    }
}

/// The checksum of a payload: the sum of its bytes modulo 256.
pub open spec fn checksum_of(bs: Seq<u8>) -> int {
    (byte_sum(bs) % 256) as int
}

/// Computes the checksum of `bs`: the sum of its bytes modulo 256.
pub fn checksum(bs: &Vec<u8>) -> (c: u8)
    ensures
        c == checksum_of(bs@),
{
    let mut acc: u32 = 0;
    let mut i: usize = 0;
    while i < bs.len()
        invariant
            i <= bs.len(),
            acc < 256,
            acc == byte_sum(bs@.take(i as int)) % 256,
        decreases bs.len() - i,
    {
        let ghost before = byte_sum(bs@.take(i as int));
        assert(bs@.take(i + 1).drop_last() =~= bs@.take(i as int));
        let b = bs[i];
        proof {
            vstd::arithmetic::div_mod::lemma_add_mod_noop(before as int, b as int, 256);
            vstd::arithmetic::div_mod::lemma_small_mod(b as nat, 256);
        }
        acc = (acc + b as u32) % 256;
        i = i + 1;
    }
    assert(bs@.take(i as int) =~= bs@);
    acc as u8
}

/// The checksum of no bytes is 0.
pub proof fn lemma_checksum_empty()
    ensures
        checksum_of(Seq::<u8>::empty()) == 0,
{
}

/// Appending a byte adds it to the checksum, modulo 256, at any length: the
/// checksum is the sum of all the bytes modulo 256.
pub proof fn lemma_checksum_append(bs: Seq<u8>, b: u8)
    ensures
        checksum_of(bs.push(b)) == (checksum_of(bs) + b) % 256,
        0 <= checksum_of(bs) < 256,
{
    assert(bs.push(b).drop_last() =~= bs);
    vstd::arithmetic::div_mod::lemma_add_mod_noop(byte_sum(bs) as int, b as int, 256);
    vstd::arithmetic::div_mod::lemma_small_mod(b as nat, 256);
}

/// The red, green and blue bytes of each pixel, in order.
pub open spec fn rgb_bytes(ps: Seq<Pixel>) -> Seq<u8>
    decreases ps.len(),
{
    if ps.len() == 0 {
        seq![]
    } else {
        rgb_bytes(ps.drop_last()) + seq![ps.last().r, ps.last().g, ps.last().b]
    }
}

/// Channel `c` (0 red, 1 green, 2 blue) of a pixel.
pub open spec fn channel(p: Pixel, c: int) -> u8 {
    if c == 0 {
        p.r
    } else if c == 1 {
        p.g
    } else {
        p.b
    }
}

/// Byte `k` of the flattened pixels is channel `k % 3` of pixel `k / 3`.
pub proof fn lemma_rgb_bytes(ps: Seq<Pixel>)
    ensures
        rgb_bytes(ps).len() == 3 * ps.len(),
        forall|k: int|
            0 <= k < 3 * ps.len() ==> #[trigger] rgb_bytes(ps)[k] == channel(ps[k / 3], k % 3),
    decreases ps.len(),
{
    if ps.len() > 0 {
        let prev = ps.drop_last();
        lemma_rgb_bytes(prev);
        assert forall|k: int| 0 <= k < 3 * ps.len() implies #[trigger] rgb_bytes(ps)[k] == channel(
            ps[k / 3],
            k % 3,
        ) by {
            if k < 3 * prev.len() {
                assert(rgb_bytes(ps)[k] == rgb_bytes(prev)[k]);
                assert(ps[k / 3] == prev[k / 3]);
            } else {
                assert(k / 3 == ps.len() - 1);
            }
        }
    }
}

/// The first `size` bytes of the pixels' red, green and blue channels, read
/// in order; the bytes past `size` are padding and are dropped.
pub fn payload_bytes(myvec: &Vec<Pixel>, size: u16) -> (bytes: Vec<u8>)
    requires
        size <= 3 * myvec.len(),
    ensures
        bytes@ == rgb_bytes(myvec@).take(size as int),
{
    let mut bytevec: Vec<u8> = Vec::new();
    let mut i: usize = 0;
    while i < myvec.len()
        invariant
            i <= myvec.len(),
            bytevec@ == rgb_bytes(myvec@.take(i as int)),
        decreases myvec.len() - i,
    {
        assert(myvec@.take(i + 1).drop_last() =~= myvec@.take(i as int));
        let p = myvec[i];
        bytevec.push(p.r);
        bytevec.push(p.g);
        bytevec.push(p.b);
        i = i + 1;
    }
    assert(myvec@.take(i as int) =~= myvec@);
    proof {
        lemma_rgb_bytes(myvec@);
    }
    let ghost full = bytevec@;
    while bytevec.len() != size as usize
        invariant
            size <= full.len(),
            size <= bytevec.len() <= full.len(),
            bytevec@ == full.take(bytevec.len() as int),
        decreases bytevec.len(),
    {
        bytevec.pop();
    }
    bytevec
}

/// Byte `i` of a payload, or 0 past its end (the padding of the last pixel).
pub open spec fn padded_byte(bs: Seq<u8>, i: int) -> u8 {
    if 0 <= i < bs.len() {
        bs[i]
    } else {
        0
    }
}

/// How a payload is drawn: three bytes per opaque pixel, the last pixel
/// padded with zeros.
pub open spec fn pixels_for_bytes(bs: Seq<u8>) -> Seq<Pixel> {
    Seq::new(
        ((bs.len() + 2) / 3) as nat,
        |i: int|
            Pixel {
                r: padded_byte(bs, 3 * i),
                g: padded_byte(bs, 3 * i + 1),
                b: padded_byte(bs, 3 * i + 2),
                a: 255,
            },
    )
}

/// Reading back the pixels a payload is drawn as, cut to the payload's size,
/// gives the payload again.
pub proof fn lemma_payload_roundtrip(bs: Seq<u8>)
    ensures
        bs.len() <= 3 * pixels_for_bytes(bs).len(),
        rgb_bytes(pixels_for_bytes(bs)).take(bs.len() as int) == bs,
{
    let ps = pixels_for_bytes(bs);
    lemma_rgb_bytes(ps);
    assert forall|k: int| 0 <= k < bs.len() implies #[trigger] rgb_bytes(ps)[k] == bs[k] by {
        assert(rgb_bytes(ps)[k] == channel(ps[k / 3], k % 3));
        assert(3 * (k / 3) + k % 3 == k);
    }
    assert(rgb_bytes(ps).take(bs.len() as int) =~= bs);
}

/// The header colour announcing a payload: its size in red (high byte) and
/// green (low byte), its checksum in blue.
pub open spec fn header_pixel_for(bs: Seq<u8>) -> Pixel {
    Pixel {
        r: (bs.len() / 256) as u8,
        g: (bs.len() % 256) as u8,
        b: checksum_of(bs) as u8,
        a: 255,
    }
}

/// The header colour of a payload of at most 65535 bytes reads back as the
/// payload's size and checksum.
pub proof fn lemma_header_pixel_for(bs: Seq<u8>)
    requires
        bs.len() <= 0xffff,
    ensures
        crate::pixel::header_size(crate::pixel::rgb_value(header_pixel_for(bs))) == bs.len(),
        crate::pixel::header_checksum(crate::pixel::rgb_value(header_pixel_for(bs))) == checksum_of(bs),
{
    let hp = header_pixel_for(bs);
    crate::pixel::lemma_header_pixel_fields(hp);
    assert(hp.r * 256 + hp.g == bs.len());
    assert(0 <= checksum_of(bs) < 256);
}

} // verus!

//! The header word read by the capture probe: three 8-bit fields.

use vstd::prelude::*;

verus! {

/// Splits a header word into its number of boxes (bits 16 and up), box
/// width (bits 8 to 15) and clock (bits 0 to 7).
pub fn decode_header(header: u32) -> (r: (u32, u32, u32))
    ensures
        r.0 == header / 65536,
        r.1 == (header / 256) % 256,
        r.2 == header % 256,
{
    assert(header >> 16 == header / 65536) by (bit_vector);
    assert((header >> 8) & 0xff == (header / 256) % 256) by (bit_vector);
    assert(header & 0xff == header % 256) by (bit_vector);
    let t_size = header >> 16;
    let box_width = (header >> 8) & 0xff;
    let clock = header & 0xff;
    (t_size, box_width, clock)
}

/// Read from a pixel's colour, the three fields are its red, green and blue
/// channels.
pub proof fn lemma_probe_fields(p: crate::pixel::Pixel)
    ensures
        crate::pixel::rgb_value(p) / 65536 == p.r,
        (crate::pixel::rgb_value(p) / 256) % 256 == p.g,
        crate::pixel::rgb_value(p) % 256 == p.b,
{
    let r = p.r as int;
    let g = p.g as int;
    let b = p.b as int;
    assert((r * 65536 + g * 256 + b) / 65536 == r) by (nonlinear_arith)
        requires
            0 <= g < 256,
            0 <= b < 256,
    ;
    assert((r * 65536 + g * 256 + b) / 256 == r * 256 + g) by (nonlinear_arith)
        requires
            0 <= b < 256,
    ;
    assert((r * 256 + g) % 256 == g) by (nonlinear_arith)
        requires
            0 <= g < 256,
    ;
    assert((r * 65536 + g * 256 + b) % 256 == b) by (nonlinear_arith)
        requires
            0 <= b < 256,
    ;
}

} // verus!

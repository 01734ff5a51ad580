//! Writing a pixel buffer as plain PPM.

use crate::raytracer::compositor::{ColorRGBA, Surface};
use crate::util::decimal::{decimal, push_decimal};
use vstd::prelude::*;

verus! {

/// The largest value of a colour channel, which the header announces.
pub const MAX_CHANNEL: u8 = 255;

/// The ASCII space.
pub const SPACE: u8 = 32;

/// The header of a plain PPM image: the two bytes that name the format,
/// then width, height and the largest channel value, separated by single
/// spaces and ended by a line feed.
pub open spec fn ppm_header(width: nat, height: nat) -> Seq<u8> {
    seq![80u8, 51u8, 32u8] + decimal(width) + seq![32u8] + decimal(height) + seq![32u8] + decimal(
        255,
    ) + seq![10u8]
}

/// One pixel: red, green and blue in decimal, each followed by a space.
pub open spec fn ppm_pixel(c: ColorRGBA) -> Seq<u8> {
    decimal(c.r as nat) + seq![32u8] + decimal(c.g as nat) + seq![32u8] + decimal(c.b as nat)
        + seq![32u8]
}

/// The pixels of a buffer, one after another in the order of the buffer.
pub open spec fn ppm_pixels(buffer: Seq<ColorRGBA>) -> Seq<u8>
    decreases buffer.len(),
{
    if buffer.len() == 0 {
        Seq::empty()
    } else {
        ppm_pixels(buffer.drop_last()) + ppm_pixel(buffer.last())
    }
}

/// A surface as plain PPM: the header, then the pixels row by row.
pub open spec fn ppm_text(surface: Surface) -> Seq<u8> {
    ppm_header(surface.width as nat, surface.height as nat) + ppm_pixels(surface.buffer@)
}

/// Appends one pixel to `out`.
fn push_pixel(out: &mut Vec<u8>, c: ColorRGBA)
    ensures
        final(out)@ == old(out)@ + ppm_pixel(c),
{
    push_decimal(out, c.r as u64);
    out.push(SPACE);
    push_decimal(out, c.g as u64);
    out.push(SPACE);
    push_decimal(out, c.b as u64);
    out.push(SPACE);
    assert(out@ =~= old(out)@ + ppm_pixel(c));
}

/// Appends the header of a `width` by `height` image to `out`.
fn push_header(out: &mut Vec<u8>, width: usize, height: usize)
    ensures
        final(out)@ == old(out)@ + ppm_header(width as nat, height as nat),
{
    out.push(80);
    out.push(51);
    out.push(SPACE);
    push_decimal(out, width as u64);
    out.push(SPACE);
    push_decimal(out, height as u64);
    out.push(SPACE);
    push_decimal(out, MAX_CHANNEL as u64);
    out.push(10);
    assert(out@ =~= old(out)@ + ppm_header(width as nat, height as nat));
}

/// The bytes of `surface` as a plain PPM image.
///
/// The alpha channel is not written. Nothing but the surface decides the
/// bytes, so two calls on equal surfaces give equal bytes.
pub fn to_ppm(surface: &Surface) -> (bytes: Vec<u8>)
    ensures
        bytes@ == ppm_text(*surface),
{
    let mut out: Vec<u8> = Vec::new();
    push_header(&mut out, surface.width, surface.height);
    let n: usize = surface.buffer.len();
    let mut i: usize = 0;
    while i < n
        invariant
            i <= n,
            n == surface.buffer@.len(),
            out@ == ppm_header(surface.width as nat, surface.height as nat) + ppm_pixels(
                surface.buffer@.take(i as int),
            ),
        decreases n - i,
    {
        let ghost before = out@;
        push_pixel(&mut out, surface.buffer[i]);
        proof {
            let next = surface.buffer@.take(i + 1);
            assert(next.drop_last() =~= surface.buffer@.take(i as int));
            assert(next.last() == surface.buffer@[i as int]);
            assert(out@ =~= ppm_header(surface.width as nat, surface.height as nat) + ppm_pixels(
                next,
            ));
        }
        i = i + 1;
    }
    proof {
        assert(surface.buffer@.take(n as int) =~= surface.buffer@);
    }
    out
}

/// Every PPM text begins with its header, and the header of a surface is
/// decided by its width and height alone.
pub proof fn lemma_ppm_begins_with_header(surface: Surface)
    ensures
        ppm_header(surface.width as nat, surface.height as nat).is_prefix_of(ppm_text(surface)),
        ppm_text(surface).len() == ppm_header(surface.width as nat, surface.height as nat).len()
            + ppm_pixels(surface.buffer@).len(),
{
}

/// Surfaces with the same size and the same pixels have the same PPM text.
pub proof fn lemma_ppm_is_a_function_of_the_pixels(a: Surface, b: Surface)
    requires
        a.width == b.width,
        a.height == b.height,
        a.buffer@ == b.buffer@,
    ensures
        ppm_text(a) == ppm_text(b),
{
}

} // verus!

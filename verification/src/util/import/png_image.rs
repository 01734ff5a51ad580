//! Reading a pixel buffer from a PNG image.

use crate::raytracer::compositor::{ColorRGBA, Surface};
use vstd::prelude::*;

verus! {

/// The first frame of a PNG image as the decoder hands it out: its size, the
/// PNG codes of its colour type and bit depth, and its samples row by row.
#[derive(Clone, Debug, PartialEq, Eq)]
pub struct Frame {
    pub width: u32,
    pub height: u32,
    pub color_type: u8,
    pub bit_depth: u8,
    pub bytes: Vec<u8>,
}

/// The mathematical content of a [`Frame`].
pub struct FrameData {
    pub width: u32,
    pub height: u32,
    pub color_type: u8,
    pub bit_depth: u8,
    pub bytes: Seq<u8>,
}

impl View for Frame {
    type V = FrameData;

    open spec fn view(&self) -> FrameData {
        FrameData {
            width: self.width,
            height: self.height,
            color_type: self.color_type,
            bit_depth: self.bit_depth,
            bytes: self.bytes@,
        }
    }
}

/// Why a PNG image gave no surface.
#[derive(Clone, Debug, PartialEq, Eq)]
pub enum PngError {
    /// The file is longer than [`MAX_FILE_BYTES`], or its header announces
    /// more than [`MAX_PIXELS`] pixels.
    TooLarge,
    /// A palette whose length is no multiple of 3 or above 768 bytes, or an
    /// animation that announces 4294967295 frames.
    BadChunk,
    /// The decoder refused the bytes; its message is kept.
    Malformed(String),
    /// The frame is not 8-bit grey, grey with alpha, RGB or RGBA.
    Unsupported { color_type: u8, bit_depth: u8 },
    /// The frame does not hold one group of samples for each pixel.
    SizeMismatch,
}

/// The most pixels that an image may announce. Eight bytes for each pixel,
/// the most that a PNG sample layout takes, then stay within a gibibyte.
pub const MAX_PIXELS: u64 = 0x0800_0000;

/// The most bytes that a file may have: what a 32-bit length can count.
pub const MAX_FILE_BYTES: u64 = 0xFFFF_FFFF;

/// The four bytes of `s` from index `i` on as one number, the first byte
/// weighing most.
pub open spec fn be32(s: Seq<u8>, i: int) -> int {
    s[i] * 0x100_0000 + s[i + 1] * 0x1_0000 + s[i + 2] * 0x100 + s[i + 3]
}

/// Whether `s` begins with the eight bytes that every PNG file begins with.
pub open spec fn has_signature(s: Seq<u8>) -> bool {
    &&& s.len() >= 8
    &&& s[0] == 137 && s[1] == 80 && s[2] == 78 && s[3] == 71
    &&& s[4] == 13 && s[5] == 10 && s[6] == 26 && s[7] == 10
}

/// Whether the chunk that begins at index `pos` has the type spelled by the
/// four bytes `t`. A chunk is four bytes of length, four of type, the data
/// and four bytes of checksum.
pub open spec fn is_chunk(s: Seq<u8>, pos: int, t: (u8, u8, u8, u8)) -> bool {
    s[pos + 4] == t.0 && s[pos + 5] == t.1 && s[pos + 6] == t.2 && s[pos + 7] == t.3
}

/// The type of the header chunk, `IHDR`.
pub open spec fn header_chunk() -> (u8, u8, u8, u8) {
    (73, 72, 68, 82)
}

/// The type of the palette chunk, `PLTE`.
pub open spec fn palette_chunk() -> (u8, u8, u8, u8) {
    (80, 76, 84, 69)
}

/// The type of the animation control chunk, `acTL`.
pub open spec fn animation_chunk() -> (u8, u8, u8, u8) {
    (97, 99, 84, 76)
}

/// Whether the file is too large: it is longer than [`MAX_FILE_BYTES`], or
/// it has the signature, its first chunk is a header, and width times
/// height, which the header begins with, is above [`MAX_PIXELS`].
pub open spec fn too_large(s: Seq<u8>) -> bool {
    ||| s.len() > MAX_FILE_BYTES
    ||| {
        &&& has_signature(s)
        &&& s.len() >= 24
        &&& is_chunk(s, 8, header_chunk())
        &&& be32(s, 16) * be32(s, 20) > MAX_PIXELS
    }
}

/// Whether the chunk at index `pos` is one that the decoder can take: a
/// palette has a length that is a multiple of 3 and at most 768, and an
/// animation control does not announce 4294967295 frames.
pub open spec fn chunk_fits(s: Seq<u8>, pos: int) -> bool {
    &&& is_chunk(s, pos, palette_chunk()) ==> be32(s, pos) % 3 == 0 && be32(s, pos) <= 768
    &&& is_chunk(s, pos, animation_chunk()) && pos + 12 <= s.len() ==> be32(s, pos + 8)
        < 0xFFFF_FFFF
}

/// Whether every chunk from index `pos` on fits. The next chunk begins
/// behind the data and the checksum of this one; the walk ends where fewer
/// than eight bytes are left for a length and a type.
pub open spec fn chunks_fit_from(s: Seq<u8>, pos: int) -> bool
    decreases s.len() - pos,
{
    if pos < 0 || pos + 8 > s.len() {
        true
    } else if !chunk_fits(s, pos) {
        false
    } else if pos + 12 + be32(s, pos) + 8 > s.len() {
        true
    } else {
        chunks_fit_from(s, pos + 12 + be32(s, pos))
    }
}

/// Whether the file has the signature and a chunk that does not fit.
pub open spec fn bad_chunk(s: Seq<u8>) -> bool {
    has_signature(s) && !chunks_fit_from(s, 8)
}

/// Whether the bytes may be handed to the decoder.
pub open spec fn admitted(s: Seq<u8>) -> bool {
    !too_large(s) && !bad_chunk(s)
}

/// The frame that the `png` crate decodes from the bytes of a PNG file, with
/// every sample brought to 8 bits and palettes expanded; `None` where the
/// decoder refuses the bytes.
pub uninterp spec fn decoded_frame(data: Seq<u8>) -> Option<FrameData>;

/// The message with which the `png` crate's decoder refuses bytes.
pub uninterp spec fn refusal_text(data: Seq<u8>) -> Seq<char>;

/// Decodes the first frame of a PNG file held in memory.
///
/// Calls `png::Decoder::new`, then `Decoder::set_transformations` with
/// `Transformations::normalize_to_color8()`, `Decoder::set_ignore_text_chunk`
/// and `Decoder::set_ignore_iccp_chunk`, so that text and colour profiles are
/// passed over unread, then `Decoder::read_info`, and `Reader::next_frame` on
/// a buffer of `Reader::output_buffer_size()` bytes. An error of theirs is
/// written as text through its `Display` impl.
///
/// Assumed, not proved: on bytes that are admitted the calls return, and
/// what comes back depends on the bytes alone, so the frame has the name
/// [`decoded_frame`] and the message the name [`refusal_text`]. Nothing is
/// assumed of what either holds.
///
/// Kept out are the bytes on which the decoder is known not to return. It
/// stores a palette of any length and later copies it three bytes at a time
/// into a table of 256 colours. It adds one to the number of frames of an
/// animation, and to the running number of each frame control, in 32 bits;
/// a file of at most [`MAX_FILE_BYTES`] has no room for enough of the
/// latter. Kept out too are images so large that their size, which the
/// buffer is made to, need not fit the machine.
#[verifier::external_body]
fn decode(data: &[u8]) -> (r: Result<Frame, String>)
    requires
        admitted(data@),
    ensures
        match r {
            Ok(frame) => decoded_frame(data@) == Some(frame@),
            Err(text) => decoded_frame(data@).is_none() && text@ == refusal_text(data@),
        },
{
    let mut decoder = png::Decoder::new(data);
    decoder.set_transformations(png::Transformations::normalize_to_color8());
    decoder.set_ignore_text_chunk(true);
    decoder.set_ignore_iccp_chunk(true);
    let mut reader = decoder.read_info().map_err(|e| e.to_string())?;
    let mut bytes = vec![0u8; reader.output_buffer_size()];
    let info = reader.next_frame(&mut bytes).map_err(|e| e.to_string())?;
    let (color_type, bit_depth) = (info.color_type as u8, info.bit_depth as u8);
    Ok(Frame { width: info.width, height: info.height, color_type, bit_depth, bytes })
}

/// The four bytes of `data` from index `i` on as one number.
fn read_be32(data: &[u8], i: usize) -> (r: u32)
    requires
        i + 4 <= data@.len() <= usize::MAX,
    ensures
        r == be32(data@, i as int),
{
    let a: u32 = data[i] as u32;
    let b: u32 = data[i + 1] as u32;
    let c: u32 = data[i + 2] as u32;
    let d: u32 = data[i + 3] as u32;
    a * 0x100_0000 + b * 0x1_0000 + c * 0x100 + d
}

/// Whether `data` begins with the signature of a PNG file.
fn starts_as_png(data: &[u8]) -> (r: bool)
    ensures
        r == has_signature(data@),
{
    data.len() >= 8 && data[0] == 137 && data[1] == 80 && data[2] == 78 && data[3] == 71
        && data[4] == 13 && data[5] == 10 && data[6] == 26 && data[7] == 10
}

/// Whether the chunk at `pos` has the type spelled by four bytes.
fn chunk_is(data: &[u8], pos: usize, a: u8, b: u8, c: u8, d: u8) -> (r: bool)
    requires
        pos + 8 <= data@.len() <= usize::MAX,
    ensures
        r == is_chunk(data@, pos as int, (a, b, c, d)),
{
    data[pos + 4] == a && data[pos + 5] == b && data[pos + 6] == c && data[pos + 7] == d
}

/// Whether the file is too long or announces more pixels than
/// [`MAX_PIXELS`].
pub fn announces_too_much(data: &[u8]) -> (r: bool)
    ensures
        r == too_large(data@),
{
    if data.len() as u64 > MAX_FILE_BYTES {
        return true;
    }
    if !starts_as_png(data) || data.len() < 24 || !chunk_is(data, 8, 73, 72, 68, 82) {
        return false;
    }
    let width: u64 = read_be32(data, 16) as u64;
    let height: u64 = read_be32(data, 20) as u64;
    assert(width * height <= 0xFFFF_FFFF * 0xFFFF_FFFF) by (nonlinear_arith)
        requires
            0 <= width <= 0xFFFF_FFFF,
            0 <= height <= 0xFFFF_FFFF,
    ;
    width * height > MAX_PIXELS
}

/// Whether the file has the signature and a chunk that the decoder cannot
/// take.
pub fn holds_bad_chunk(data: &[u8]) -> (r: bool)
    ensures
        r == bad_chunk(data@),
{
    if !starts_as_png(data) {
        return false;
    }
    let n: usize = data.len();
    let mut pos: usize = 8;
    while n - pos >= 8
        invariant
            8 <= pos <= n,
            n == data@.len(),
            has_signature(data@),
            chunks_fit_from(data@, 8) == chunks_fit_from(data@, pos as int),
        decreases n - pos,
    {
        let length: u32 = read_be32(data, pos);
        if chunk_is(data, pos, 80, 76, 84, 69) && (length % 3 != 0 || length > 768) {
            return true;
        }
        if chunk_is(data, pos, 97, 99, 84, 76) && n - pos >= 12 && read_be32(data, pos + 8)
            == 0xFFFF_FFFF {
            return true;
        }
        let left: usize = n - pos - 8;
        if left < 12 || (length as u64) > (left - 12) as u64 {
            return false;
        }
        pos = pos + 12 + length as usize;
    }
    false
}

/// How many samples a pixel has in a frame that can become a surface: 1 for
/// grey, 2 for grey with alpha, 3 for RGB and 4 for RGBA, at 8 bits each.
pub open spec fn samples_per_pixel(color_type: u8, bit_depth: u8) -> Option<nat> {
    if bit_depth != 8 {
        None
    } else if color_type == 0 {
        Some(1)
    } else if color_type == 4 {
        Some(2)
    } else if color_type == 2 {
        Some(3)
    } else if color_type == 6 {
        Some(4)
    } else {
        None
    }
}

/// The colour of pixel `i` in samples that hold `n` for each pixel. Grey
/// becomes equal red, green and blue; without an alpha sample the colour is
/// opaque.
pub open spec fn pixel_of(bytes: Seq<u8>, n: nat, i: int) -> ColorRGBA {
    let at = i * n;
    if n == 1 {
        ColorRGBA { r: bytes[at], g: bytes[at], b: bytes[at], a: 255 }
    } else if n == 2 {
        ColorRGBA { r: bytes[at], g: bytes[at], b: bytes[at], a: bytes[at + 1] }
    } else if n == 3 {
        ColorRGBA { r: bytes[at], g: bytes[at + 1], b: bytes[at + 2], a: 255 }
    } else {
        ColorRGBA { r: bytes[at], g: bytes[at + 1], b: bytes[at + 2], a: bytes[at + 3] }
    }
}

/// Whether `r` is what a frame gives: the surface of its pixels, or the
/// reason why it has none.
pub open spec fn is_surface_of(r: Result<Surface, PngError>, frame: FrameData) -> bool {
    match samples_per_pixel(frame.color_type, frame.bit_depth) {
        None => r == Err::<Surface, PngError>(
            PngError::Unsupported { color_type: frame.color_type, bit_depth: frame.bit_depth },
        ),
        Some(n) => if frame.bytes.len() != n * frame.width * frame.height {
            r == Err::<Surface, PngError>(PngError::SizeMismatch)
        } else {
            &&& r matches Ok(s)
            &&& s.width == frame.width
            &&& s.height == frame.height
            &&& s.well_formed()
            &&& forall|i: int|
                0 <= i < s.buffer@.len() ==> s.buffer@[i] == pixel_of(frame.bytes, n, i)
        },
    }
}

/// The number of samples for each pixel of a frame, if it can become a
/// surface.
fn samples_of(color_type: u8, bit_depth: u8) -> (r: Option<usize>)
    ensures
        match r {
            Some(n) => samples_per_pixel(color_type, bit_depth) == Some(n as nat),
            None => samples_per_pixel(color_type, bit_depth).is_none(),
        },
{
    if bit_depth != 8 {
        None
    } else if color_type == 0 {
        Some(1)
    } else if color_type == 4 {
        Some(2)
    } else if color_type == 2 {
        Some(3)
    } else if color_type == 6 {
        Some(4)
    } else {
        None
    }
}

/// Turns a decoded frame into a surface.
pub fn surface_from_frame(frame: &Frame) -> (r: Result<Surface, PngError>)
    ensures
        is_surface_of(r, frame@),
{
    let n: usize = match samples_of(frame.color_type, frame.bit_depth) {
        None => {
            return Err(
                PngError::Unsupported {
                    color_type: frame.color_type,
                    bit_depth: frame.bit_depth,
                },
            );
        },
        Some(n) => n,
    };
    let w: u128 = frame.width as u128;
    let h: u128 = frame.height as u128;
    assert(w * h <= 0xFFFF_FFFF * 0xFFFF_FFFF) by (nonlinear_arith)
        requires
            0 <= w <= 0xFFFF_FFFF,
            0 <= h <= 0xFFFF_FFFF,
    ;
    let pixels: u128 = w * h;
    assert(n * pixels <= 4 * (0xFFFF_FFFF * 0xFFFF_FFFF)) by (nonlinear_arith)
        requires
            1 <= n <= 4,
            0 <= pixels <= 0xFFFF_FFFF * 0xFFFF_FFFF,
    ;
    let expected: u128 = (n as u128) * pixels;
    assert(expected == n * frame.width * frame.height) by (nonlinear_arith)
        requires
            expected == n * pixels,
            pixels == w * h,
            w == frame.width,
            h == frame.height,
    ;
    let length: usize = frame.bytes.len();
    if length as u128 != expected {
        return Err(PngError::SizeMismatch);
    }
    assert(pixels <= length) by (nonlinear_arith)
        requires
            length == n * pixels,
            1 <= n,
            0 <= pixels,
    ;
    let count: usize = pixels as usize;
    let mut buffer: Vec<ColorRGBA> = Vec::new();
    let mut i: usize = 0;
    let mut at: usize = 0;
    while i < count
        invariant
            i <= count,
            1 <= n <= 4,
            at == i * n,
            length == count * n,
            length == frame.bytes@.len(),
            buffer@.len() == i,
            forall|k: int| 0 <= k < i ==> buffer@[k] == pixel_of(frame.bytes@, n as nat, k),
        decreases count - i,
    {
        assert(at + n <= length) by (nonlinear_arith)
            requires
                at == i * n,
                length == count * n,
                i < count,
                1 <= n,
        ;
        let color: ColorRGBA = if n == 1 {
            ColorRGBA::new_rgb(frame.bytes[at], frame.bytes[at], frame.bytes[at])
        } else if n == 2 {
            ColorRGBA::new_rgba(
                frame.bytes[at],
                frame.bytes[at],
                frame.bytes[at],
                frame.bytes[at + 1],
            )
        } else if n == 3 {
            ColorRGBA::new_rgb(frame.bytes[at], frame.bytes[at + 1], frame.bytes[at + 2])
        } else {
            ColorRGBA::new_rgba(
                frame.bytes[at],
                frame.bytes[at + 1],
                frame.bytes[at + 2],
                frame.bytes[at + 3],
            )
        };
        buffer.push(color);
        assert((i + 1) * n == at + n) by (nonlinear_arith)
            requires
                at == i * n,
        ;
        i = i + 1;
        at = at + n;
    }
    Ok(Surface { width: frame.width as usize, height: frame.height as usize, buffer })
}

/// Whether `r` is what reading the bytes of a PNG file gives: the refusal
/// of an image that announces too much or holds a chunk that does not fit,
/// else the decoder's refusal with its message, else what the decoded frame
/// gives.
pub open spec fn is_read_of(r: Result<Surface, PngError>, data: Seq<u8>) -> bool {
    if too_large(data) {
        r == Err::<Surface, PngError>(PngError::TooLarge)
    } else if bad_chunk(data) {
        r == Err::<Surface, PngError>(PngError::BadChunk)
    } else {
        match decoded_frame(data) {
            None => r matches Err(PngError::Malformed(text)) && text@ == refusal_text(data),
            Some(frame) => is_surface_of(r, frame),
        }
    }
}

/// Reads a surface from the bytes of a PNG file.
///
/// The image is decoded to 8 bits for each sample. Grey pixels become equal
/// red, green and blue; pixels without alpha become opaque. The decoder's
/// refusal is passed on with its message. Text and colour profiles in the
/// file are not read. A file that is too long or announces more than
/// [`MAX_PIXELS`] pixels, and one with a palette or an animation control
/// that the decoder cannot take, is refused before the decoder sees it.
pub fn from_png(data: &[u8]) -> (r: Result<Surface, PngError>)
    ensures
        is_read_of(r, data@),
{
    if announces_too_much(data) {
        return Err(PngError::TooLarge);
    }
    if holds_bad_chunk(data) {
        return Err(PngError::BadChunk);
    }
    match decode(data) {
        Err(text) => Err(PngError::Malformed(text)),
        Ok(frame) => surface_from_frame(&frame),
    }
}

} // verus!

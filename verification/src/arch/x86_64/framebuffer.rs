//! Pixels in a linear framebuffer: rows of `stride` pixels, each `bytes_per_pixel`
//! bytes, in one of three formats.
use vstd::prelude::*;

verus! {

#[derive(Clone, Copy, Debug, PartialEq, Eq)]
pub struct Position {
    pub x: usize,
    pub y: usize,
}

#[derive(Clone, Copy, Debug, PartialEq, Eq)]
pub struct Color {
    pub red: u8,
    pub green: u8,
    pub blue: u8,
}

/// How a pixel's bytes hold its color.
#[derive(Clone, Copy, Debug, PartialEq, Eq)]
pub enum PixelFormat {
    /// Red, green, blue.
    Rgb,
    /// Blue, green, red.
    Bgr,
    /// One byte of gray.
    U8,
    /// Some other layout, given by the bit offsets of the three colors.
    Unknown { red_position: u8, green_position: u8, blue_position: u8 },
}

/// The shape of a framebuffer.
#[derive(Clone, Copy, Debug, PartialEq, Eq)]
pub struct FrameInfo {
    pub byte_len: usize,
    pub width: usize,
    pub height: usize,
    pub pixel_format: PixelFormat,
    pub bytes_per_pixel: usize,
    pub stride: usize,
}

/// Where the bytes of the pixel at `pos` start.
pub open spec fn pixel_offset(info: FrameInfo, pos: Position) -> int {
    (pos.y * info.stride + pos.x) * info.bytes_per_pixel
}

/// The bytes that a pixel of `color` starts with in `format`; none for a format of
/// unknown layout.
pub open spec fn pixel_bytes(format: PixelFormat, color: Color) -> Seq<u8> {
    match format {
        PixelFormat::Rgb => seq![color.red, color.green, color.blue],
        PixelFormat::Bgr => seq![color.blue, color.green, color.red],
        PixelFormat::U8 => seq![(color.red / 3 + color.green / 3 + color.blue / 3) as u8],
        PixelFormat::Unknown { .. } => seq![],
    }
}

/// `buf` with `bytes` written from `off` on.
pub open spec fn written(buf: Seq<u8>, off: int, bytes: Seq<u8>) -> Seq<u8> {
    Seq::new(buf.len(), |i: int| if off <= i < off + bytes.len() { bytes[i - off] } else { buf[i] })
}

/// Colors the pixel at `position` in `buffer`.
pub fn set_pixel_in(buffer: &mut [u8], info: &FrameInfo, position: Position, color: Color)
    requires
        !(info.pixel_format is Unknown),
        position.y * info.stride + position.x <= usize::MAX,
        (position.y * info.stride + position.x) * info.bytes_per_pixel + pixel_bytes(info.pixel_format, color).len()
            <= old(buffer)@.len(),
    ensures
        final(buffer)@ == written(old(buffer)@, pixel_offset(*info, position), pixel_bytes(info.pixel_format, color)),
{
    assert((position.y * info.stride + position.x) * info.bytes_per_pixel >= position.y * info.stride + position.x
        || info.bytes_per_pixel == 0) by (nonlinear_arith);
    assert(position.y * info.stride <= position.y * info.stride + position.x);
    let len = buffer.len();
    let byte_offset = {
        let line_offset = position.y * info.stride;
        let pixel_offset = line_offset + position.x;
        pixel_offset * info.bytes_per_pixel
    };
    let ghost before = buffer@;
    match info.pixel_format {
        PixelFormat::Rgb => {
            buffer[byte_offset] = color.red;
            buffer[byte_offset + 1] = color.green;
            buffer[byte_offset + 2] = color.blue;
        },
        PixelFormat::Bgr => {
            buffer[byte_offset] = color.blue;
            buffer[byte_offset + 1] = color.green;
            buffer[byte_offset + 2] = color.red;
        },
        PixelFormat::U8 => {
            let gray = color.red / 3 + color.green / 3 + color.blue / 3;
            buffer[byte_offset] = gray;
        },
        PixelFormat::Unknown { .. } => {},
    }
    assert(buffer@ =~= written(before, byte_offset as int, pixel_bytes(info.pixel_format, color)));
}

/// Whether `info` describes a framebuffer that `len` bytes hold: its lines, `stride`
/// pixels apart and no shorter than `width`, each pixel big enough for its format.
pub open spec fn fits(info: FrameInfo, len: int) -> bool {
    &&& info.width <= info.stride
    &&& info.height * info.stride * info.bytes_per_pixel <= len
    &&& pixel_bytes(info.pixel_format, Color { red: 0, green: 0, blue: 0 }).len() <= info.bytes_per_pixel
}

/// Colors the pixel at `pos` when it lies within the framebuffer; leaves the buffer as
/// it is otherwise.
pub fn draw_pixel(buffer: &mut [u8], info: &FrameInfo, pos: Position, color: Color)
    requires
        !(info.pixel_format is Unknown),
        fits(*info, old(buffer)@.len() as int),
    ensures
        pos.x < info.width && pos.y < info.height ==> final(buffer)@ == written(
            old(buffer)@,
            pixel_offset(*info, pos),
            pixel_bytes(info.pixel_format, color),
        ),
        !(pos.x < info.width && pos.y < info.height) ==> final(buffer)@ == old(buffer)@,
{
    if pos.x >= info.width || pos.y >= info.height {
        return;
    }
    let ghost k = pixel_bytes(info.pixel_format, color).len();
    assert(k == pixel_bytes(info.pixel_format, Color { red: 0, green: 0, blue: 0 }).len());
    let ghost y = pos.y as int;
    let ghost x = pos.x as int;
    let ghost w = info.stride as int;
    let ghost b = info.bytes_per_pixel as int;
    let ghost h = info.height as int;
    proof {
        vstd::arithmetic::mul::lemma_mul_inequality(y + 1, h, w);
        assert((y + 1) * w == y * w + w) by (nonlinear_arith);
        assert(y * w >= 0) by (nonlinear_arith)
            requires
                y >= 0,
                w >= 0,
        ;
        vstd::arithmetic::mul::lemma_mul_inequality(y * w + x + 1, h * w, b);
        assert((y * w + x + 1) * b == (y * w + x) * b + b) by (nonlinear_arith);
        assert(h * w * b == (h * w) * b);
        assert(b >= 1);
        vstd::arithmetic::mul::lemma_mul_inequality(1, b, h * w);
        assert(1 * (h * w) == h * w);
        assert(b * (h * w) == (h * w) * b) by (nonlinear_arith);
    }
    let len = buffer.len();
    set_pixel_in(buffer, info, pos, color);
}

/// The bytes of a pixel in each format: red, green, blue in order for `Rgb`, the other
/// way round for `Bgr`, and for `U8` one gray byte, the sum of a third of each channel
/// (rounded down) counted without wrapping, so that it always fits a byte.
pub proof fn lemma_pixel_bytes(color: Color)
    ensures
        pixel_bytes(PixelFormat::Rgb, color) =~= seq![color.red, color.green, color.blue],
        pixel_bytes(PixelFormat::Bgr, color) =~= seq![color.blue, color.green, color.red],
        pixel_bytes(PixelFormat::U8, color).len() == 1,
        pixel_bytes(PixelFormat::U8, color)[0] as int == color.red as int / 3 + color.green as int / 3
            + color.blue as int / 3,
{
}

/// Gray is monotone: a color no darker in any channel is drawn no darker in `U8`; black
/// is drawn 0 and white 255.
pub proof fn lemma_gray_monotone(c1: Color, c2: Color)
    ensures
        c1.red <= c2.red && c1.green <= c2.green && c1.blue <= c2.blue ==> pixel_bytes(PixelFormat::U8, c1)[0]
            <= pixel_bytes(PixelFormat::U8, c2)[0],
        pixel_bytes(PixelFormat::U8, Color { red: 0, green: 0, blue: 0 })[0] == 0,
        pixel_bytes(PixelFormat::U8, Color { red: 255, green: 255, blue: 255 })[0] == 255,
{
    lemma_pixel_bytes(c1);
    lemma_pixel_bytes(c2);
    lemma_pixel_bytes(Color { red: 255, green: 255, blue: 255 });
    lemma_pixel_bytes(Color { red: 0, green: 0, blue: 0 });
    if c1.red <= c2.red && c1.green <= c2.green && c1.blue <= c2.blue {
        assert(c1.red as int / 3 <= c2.red as int / 3);
        assert(c1.green as int / 3 <= c2.green as int / 3);
        assert(c1.blue as int / 3 <= c2.blue as int / 3);
    }
}

} // verus!

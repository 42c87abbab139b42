use vstd::prelude::*;

verus! {

/// The color type of decoded PNG pixels.
#[derive(Clone, Copy, Debug, PartialEq, Eq, Structural)]
pub enum PngColor {
    Grayscale,
    Rgb,
    Indexed,
    GrayscaleAlpha,
    Rgba,
}

/// What the `png` crate decodes from a PNG file, with its pixels normalized to 8-bit samples:
/// the width, the height, the color type, the pixel bytes and how many of them the image fills;
/// none where it refuses the file.
pub uninterp spec fn png_decoded(bytes: Seq<u8>) -> Option<(u32, u32, PngColor, Seq<u8>, usize)>;

pub open spec fn decoded_view(v: Option<(u32, u32, PngColor, Vec<u8>, usize)>) -> Option<
    (u32, u32, PngColor, Seq<u8>, usize),
> {
    match v {
        Some(d) => Some((d.0, d.1, d.2, d.3@, d.4)),
        None => None,
    }
}

/// `png::Decoder` with `Transformations::normalize_to_color8` (`read_info`, `next_frame`): the
/// width, height, color type and pixel bytes of the first frame of a PNG file, and the number of
/// bytes the frame fills. What it decodes is named, not stated.
#[verifier::external_body]
pub fn png_decode(bytes: &Vec<u8>) -> (res: Option<(u32, u32, PngColor, Vec<u8>, usize)>)
    ensures
        decoded_view(res) == png_decoded(bytes@),
{
    let mut decoder = png::Decoder::new(std::io::Cursor::new(bytes.as_slice()));
    decoder.set_transformations(png::Transformations::normalize_to_color8());
    let mut reader = decoder.read_info().ok()?;
    let mut raw = vec![0; reader.output_buffer_size()?];
    let info = reader.next_frame(&mut raw).ok()?;
    let color = match info.color_type {
        png::ColorType::Grayscale => PngColor::Grayscale,
        png::ColorType::Rgb => PngColor::Rgb,
        png::ColorType::Indexed => PngColor::Indexed,
        png::ColorType::GrayscaleAlpha => PngColor::GrayscaleAlpha,
        png::ColorType::Rgba => PngColor::Rgba,
    };
    Some((info.width, info.height, color, raw, info.buffer_size()))
}

/// The number of bytes of a pixel of an icon of color type `c`; zero for a type that icons
/// cannot have.
pub open spec fn channels(c: PngColor) -> int {
    match c {
        PngColor::Rgb => 3,
        PngColor::Rgba => 4,
        PngColor::GrayscaleAlpha => 2,
        _ => 0,
    }
}

/// The RGBA pixel whose bytes start at `i`: RGB gets full opacity, RGBA is kept, and gray with
/// alpha gives its gray to all three colors.
pub open spec fn pixel_at(c: PngColor, raw: Seq<u8>, i: int) -> (u8, u8, u8, u8) {
    match c {
        PngColor::Rgb => (raw[i], raw[i + 1], raw[i + 2], 255u8),
        PngColor::Rgba => (raw[i], raw[i + 1], raw[i + 2], raw[i + 3]),
        PngColor::GrayscaleAlpha => (raw[i], raw[i], raw[i], raw[i + 1]),
        _ => (0u8, 0u8, 0u8, 0u8),
    }
}

/// The pixels whose bytes start at `idx`, `idx + ch`, ... below `size`.
pub open spec fn pixels_from(c: PngColor, raw: Seq<u8>, size: int, idx: int) -> Seq<(u8, u8, u8, u8)>
    decreases if idx < size {
        size - idx
    } else {
        0
    },
{
    let ch = channels(c);
    if ch <= 0 || idx >= size {
        Seq::empty()
    } else {
        seq![pixel_at(c, raw, idx)] + pixels_from(c, raw, size, idx + ch)
    }
}

/// Whether the pixels whose bytes start at `idx`, `idx + ch`, ... below `size` lie within `len`
/// bytes.
pub open spec fn reads_within(ch: int, size: int, len: int, idx: int) -> bool
    decreases if idx < size {
        size - idx
    } else {
        0
    },
{
    if ch <= 0 || idx >= size {
        true
    } else {
        idx + ch <= len && reads_within(ch, size, len, idx + ch)
    }
}

/// The RGBA pixels of the first `size` decoded bytes `raw` of color type `color`. A color type
/// that icons cannot have is refused, unless there is no byte to read.
pub open spec fn spec_expand_channels(color: PngColor, raw: Seq<u8>, size: int) -> Option<Seq<(u8, u8, u8, u8)>> {
    if channels(color) == 0 && size > 0 {
        None
    } else {
        Some(pixels_from(color, raw, size, 0))
    }
}

pub open spec fn opt_pixels_view(v: Option<Vec<(u8, u8, u8, u8)>>) -> Option<Seq<(u8, u8, u8, u8)>> {
    match v {
        Some(p) => Some(p@),
        None => None,
    }
}

/// The RGBA pixels of an icon from its decoded bytes: the first `size` bytes of `raw`, of color
/// type `color`.
pub fn expand_channels(color: PngColor, raw: &Vec<u8>, size: usize) -> (res: Option<Vec<(u8, u8, u8, u8)>>)
    requires
        reads_within(channels(color), size as int, raw@.len() as int, 0),
    ensures
        opt_pixels_view(res) == spec_expand_channels(color, raw@, size as int),
{
    let ch: usize = match color {
        PngColor::Rgb => 3,
        PngColor::Rgba => 4,
        PngColor::GrayscaleAlpha => 2,
        _ => 0,
    };
    let mut pixels: Vec<(u8, u8, u8, u8)> = Vec::new();
    let n = raw.len();
    let mut idx: usize = 0;
    while idx < size
        invariant
            n == raw@.len(),
            idx <= n,
            ch as int == channels(color),
            reads_within(ch as int, size as int, raw@.len() as int, idx as int),
            pixels@ + pixels_from(color, raw@, size as int, idx as int) == pixels_from(color, raw@, size as int, 0),
            ch == 0 ==> idx == 0,
        decreases n + 1 - idx,
    {
        if ch == 0 {
            return None;
        }
        assert(idx + ch <= raw@.len());
        assert(idx + 3 <= raw@.len() || color != PngColor::Rgb);
        assert(idx + 4 <= raw@.len() || color != PngColor::Rgba);
        let px = match color {
            PngColor::Rgb => (raw[idx], raw[idx + 1], raw[idx + 2], 255u8),
            PngColor::Rgba => (raw[idx], raw[idx + 1], raw[idx + 2], raw[idx + 3]),
            _ => (raw[idx], raw[idx], raw[idx], raw[idx + 1]),
        };
        let ghost before = pixels@;
        pixels.push(px);
        proof {
            assert(px == pixel_at(color, raw@, idx as int));
            assert(pixels_from(color, raw@, size as int, idx as int) == seq![px] + pixels_from(
                color,
                raw@,
                size as int,
                idx + ch,
            ));
            assert(pixels@ + pixels_from(color, raw@, size as int, idx + ch) =~= before + pixels_from(
                color,
                raw@,
                size as int,
                idx as int,
            ));
        }
        idx = idx + ch;
    }
    assert(pixels@ =~= pixels@ + pixels_from(color, raw@, size as int, idx as int));
    Some(pixels)
}

/// Whether the pixels of `size` bytes of `ch` bytes each lie within `len` bytes.
fn reads_within_exec(ch: usize, size: usize, len: usize) -> (res: bool)
    ensures
        res == reads_within(ch as int, size as int, len as int, 0),
{
    if ch == 0 {
        return true;
    }
    if size > 0 && len == 0 {
        return false;
    }
    let mut idx: usize = 0;
    while idx < size
        invariant
            ch > 0,
            idx <= len,
            reads_within(ch as int, size as int, len as int, 0) == reads_within(ch as int, size as int, len as int, idx as int),
        decreases len + 1 - idx,
    {
        if idx > len || ch > len - idx {
            return false;
        }
        idx = idx + ch;
    }
    true
}

/// An icon: its pixels (red, green, blue, alpha), row after row, and its size.
pub struct Icon {
    pub pixels: Vec<(u8, u8, u8, u8)>,
    pub width: usize,
    pub height: usize,
}

/// The icon of a PNG file, where the file decodes to an image of a color type that icons may
/// have, and whose pixels lie within the decoded bytes.
pub open spec fn spec_icon(bytes: Seq<u8>) -> Option<(Seq<(u8, u8, u8, u8)>, u32, u32)> {
    match png_decoded(bytes) {
        None => None,
        Some(d) => if !reads_within(channels(d.2), d.4 as int, d.3.len() as int, 0) {
            None
        } else {
            match spec_expand_channels(d.2, d.3, d.4 as int) {
                None => None,
                Some(p) => Some((p, d.0, d.1)),
            }
        },
    }
}

impl Icon {
    /// The icon whose PNG file holds `bytes`: the file is decoded with its samples normalized to
    /// 8 bits, and its pixels made RGBA (see `expand_channels`). None where the file does not
    /// decode, where its color type is not one that icons may have, or where its pixels would
    /// lie beyond the decoded bytes.
    pub fn load(bytes: &Vec<u8>) -> (res: Option<Icon>)
        ensures
            match res {
                Some(icon) => spec_icon(bytes@) == Some((icon.pixels@, icon.width as u32, icon.height as u32))
                    && icon.width as int == spec_icon(bytes@).unwrap().1 && icon.height as int == spec_icon(
                    bytes@,
                ).unwrap().2,
                None => spec_icon(bytes@) is None,
            },
    {
        let (width, height, color, raw, size) = match png_decode(bytes) {
            Some(d) => d,
            None => return None,
        };
        let ch: usize = match color {
            PngColor::Rgb => 3,
            PngColor::Rgba => 4,
            PngColor::GrayscaleAlpha => 2,
            _ => 0,
        };
        if !reads_within_exec(ch, size, raw.len()) {
            return None;
        }
        match expand_channels(color, &raw, size) {
            Some(pixels) => Some(Icon { pixels, width: width as usize, height: height as usize }),
            None => None,
        }
    }

    /// The pixel at column `x` of row `y`.
    pub fn get(&self, x: usize, y: usize) -> (res: (u8, u8, u8, u8))
        requires
            y * self.width + x < self.pixels@.len(),
        ensures
            res == self.pixels@[y * self.width + x],
    {
        let n = self.pixels.len();
        assert(y * self.width + x < n);
        self.pixels[y * self.width + x]
    }
}

} // verus!

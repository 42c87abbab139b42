use vstd::prelude::*;

verus! {

/// The PNG file that the `png` crate encodes from 8-bit RGB pixels, row after row, for an image
/// of the given width and height; none where it refuses them.
pub uninterp spec fn png_rgb8(triples: Seq<(u8, u8, u8)>, width: u32, height: u32) -> Option<Seq<u8>>;

pub open spec fn opt_bytes_view(v: Option<Vec<u8>>) -> Option<Seq<u8>> {
    match v {
        Some(b) => Some(b@),
        None => None,
    }
}

/// `png::Encoder` with 8-bit RGB color (`write_header`, `write_image_data`, `finish`): the PNG
/// file of the pixels `triples`, row after row, for an image of `width` by `height` pixels
/// (each taken as a `u32`, as the encoder takes them). What the file holds is named, not stated.
#[verifier::external_body]
pub fn rgb_triples_to_png(triples: &Vec<(u8, u8, u8)>, width: usize, height: usize) -> (res: Option<Vec<u8>>)
    ensures
        opt_bytes_view(res) == png_rgb8(triples@, width as u32, height as u32),
{
    let bytes: Vec<u8> = triples.iter().flat_map(|&(r, g, b)| [r, g, b]).collect();
    let mut buf = Vec::new();
    {
        let mut encoder = png::Encoder::new(&mut buf, width as u32, height as u32);
        encoder.set_color(png::ColorType::Rgb);
        encoder.set_depth(png::BitDepth::Eight);
        let mut writer = encoder.write_header().ok()?;
        writer.write_image_data(&bytes).ok()?;
        writer.finish().ok()?;
    }
    Some(buf)
}

} // verus!

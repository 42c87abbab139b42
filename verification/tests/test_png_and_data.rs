use renderer::draw::icon::{expand_channels, png_decode, Icon, PngColor};
use renderer::draw::png_writer::rgb_triples_to_png;
use renderer::geodata::saver::BufferedData;

#[test]
fn test_rgb_triples_to_png_round_trip() {
    let triples = vec![(255, 0, 0), (0, 255, 0), (0, 0, 255), (10, 20, 30)];
    let bytes = rgb_triples_to_png(&triples, 2, 2).unwrap();
    assert_eq!(&bytes[..8], &[0x89, b'P', b'N', b'G', 0x0d, 0x0a, 0x1a, 0x0a]);
    let (width, height, color, raw, size) = png_decode(&bytes).unwrap();
    assert_eq!((width, height, color, size), (2, 2, PngColor::Rgb, 12));
    assert_eq!(&raw[..12], &[255, 0, 0, 0, 255, 0, 0, 0, 255, 10, 20, 30]);
    let icon = Icon::load(&bytes).unwrap();
    assert_eq!((icon.width, icon.height), (2, 2));
    assert_eq!(icon.get(1, 1), (10, 20, 30, 255));
    assert_eq!(icon.get(1, 0), (0, 255, 0, 255));
}

#[test]
fn test_png_refused() {
    // Fewer pixels than the image needs.
    assert_eq!(rgb_triples_to_png(&vec![(1, 2, 3)], 2, 2), None);
    assert!(png_decode(&vec![1, 2, 3]).is_none());
    assert!(Icon::load(&vec![1, 2, 3]).is_none());
}

#[test]
fn test_expand_channels() {
    let raw = vec![1, 2, 3, 4, 5, 6, 7, 8];
    assert_eq!(expand_channels(PngColor::Rgb, &raw, 6), Some(vec![(1, 2, 3, 255), (4, 5, 6, 255)]));
    assert_eq!(expand_channels(PngColor::Rgba, &raw, 8), Some(vec![(1, 2, 3, 4), (5, 6, 7, 8)]));
    assert_eq!(expand_channels(PngColor::GrayscaleAlpha, &raw, 4), Some(vec![(1, 1, 1, 2), (3, 3, 3, 4)]));
    assert_eq!(expand_channels(PngColor::Grayscale, &raw, 4), None);
    assert_eq!(expand_channels(PngColor::Indexed, &raw, 0), Some(vec![]));
}

#[test]
fn test_add_string_interns() {
    let mut data = BufferedData::new();
    assert_eq!(data.add_string("ab"), (0, 2));
    assert_eq!(data.add_string("cde"), (2, 3));
    assert_eq!(data.add_string("ab"), (0, 2));
    let mut out = Vec::new();
    data.save(&mut out).unwrap();
    assert_eq!(out, vec![0, 0, 0, 0, b'a', b'b', b'c', b'd', b'e']);
}

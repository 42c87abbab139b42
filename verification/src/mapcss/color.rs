use crate::util::str_eq;
use vstd::prelude::*;

verus! {

/// An RGB color.
#[derive(Clone, Copy, Debug, PartialEq, Eq, Structural, Hash)]
pub struct Color {
    pub r: u8,
    pub g: u8,
    pub b: u8,
}

/// The named colors that MapCSS stylesheets may refer to by name.
pub open spec fn spec_color_by_name(name: Seq<char>) -> Option<Color> {
    if name == "white"@ {
        Some(Color { r: 255, g: 255, b: 255 })
    } else if name == "black"@ {
        Some(Color { r: 0, g: 0, b: 0 })
    } else if name == "blue"@ {
        Some(Color { r: 0, g: 0, b: 255 })
    } else if name == "brown"@ {
        Some(Color { r: 165, g: 42, b: 42 })
    } else if name == "green"@ {
        Some(Color { r: 0, g: 255, b: 0 })
    } else if name == "grey"@ {
        Some(Color { r: 128, g: 128, b: 128 })
    } else if name == "pink"@ {
        Some(Color { r: 255, g: 192, b: 203 })
    } else if name == "purple"@ {
        Some(Color { r: 128, g: 0, b: 128 })
    } else if name == "red"@ {
        Some(Color { r: 255, g: 0, b: 0 })
    } else if name == "salmon"@ {
        Some(Color { r: 250, g: 128, b: 114 })
    } else {
        None
    }
}

/// Looks a color up by its MapCSS name.
pub fn from_color_name(name: &str) -> (res: Option<Color>)
    ensures
        res == spec_color_by_name(name@),
{
    if str_eq(name, "white") {
        Some(Color { r: 255, g: 255, b: 255 })
    } else if str_eq(name, "black") {
        Some(Color { r: 0, g: 0, b: 0 })
    } else if str_eq(name, "blue") {
        Some(Color { r: 0, g: 0, b: 255 })
    } else if str_eq(name, "brown") {
        Some(Color { r: 165, g: 42, b: 42 })
    } else if str_eq(name, "green") {
        Some(Color { r: 0, g: 255, b: 0 })
    } else if str_eq(name, "grey") {
        Some(Color { r: 128, g: 128, b: 128 })
    } else if str_eq(name, "pink") {
        Some(Color { r: 255, g: 192, b: 203 })
    } else if str_eq(name, "purple") {
        Some(Color { r: 128, g: 0, b: 128 })
    } else if str_eq(name, "red") {
        Some(Color { r: 255, g: 0, b: 0 })
    } else if str_eq(name, "salmon") {
        Some(Color { r: 250, g: 128, b: 114 })
    } else {
        None
    }
}

} // verus!

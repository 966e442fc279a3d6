//! Text styling and bundled fonts.
use vstd::prelude::*;
use vstd::string::*;

use crate::ir;

verus! {

/// Weight the text shaper is asked for.
#[derive(Clone, Copy, Debug, PartialEq, Eq, Structural)]
pub enum TextWeight {
    Regular,
    Bold,
}

/// Alignment the text shaper lays lines out with.
#[derive(Clone, Copy, Debug, PartialEq, Eq, Structural)]
pub enum TextAlign {
    Left,
    Center,
    Right,
}

/// The shaper weight for a scene text weight.
pub fn ir_weight(w: ir::TextWeight) -> (r: TextWeight)
    ensures
        w == ir::TextWeight::Regular ==> r == TextWeight::Regular,
        w == ir::TextWeight::Bold ==> r == TextWeight::Bold,
{
    match w {
        ir::TextWeight::Regular => TextWeight::Regular,
        ir::TextWeight::Bold => TextWeight::Bold,
    }
}

/// The shaper alignment for a scene text alignment.
pub fn ir_align(a: ir::TextAlign) -> (r: TextAlign)
    ensures
        a == ir::TextAlign::Left ==> r == TextAlign::Left,
        a == ir::TextAlign::Center ==> r == TextAlign::Center,
        a == ir::TextAlign::Right ==> r == TextAlign::Right,
{
    match a {
        ir::TextAlign::Left => TextAlign::Left,
        ir::TextAlign::Center => TextAlign::Center,
        ir::TextAlign::Right => TextAlign::Right,
    }
}

/// Look up a file in the bundled KaTeX font set
/// (`ratex_katex_fonts::ttf_bytes`). The crate embeds its font files at
/// compile time in release builds but reads them from its own source folder
/// at run time in debug builds, so the bytes depend on that folder and
/// nothing is stated of them.
#[verifier::external_body]
fn katex_ttf_bytes(filename: &str) -> (r: Option<Vec<u8>>) {
    ratex_katex_fonts::ttf_bytes(filename).map(|b| b.into_owned())
}

/// Bundle file name of a KaTeX font id: `KaTeX_<id>.ttf`.
pub open spec fn spec_katex_file_name(font_id: Seq<char>) -> Seq<char> {
    "KaTeX_"@ + font_id + ".ttf"@
}

/// Bundle file name of the KaTeX font with id `font_id` (such as
/// `Main-Regular`).
pub fn katex_file_name(font_id: &str) -> (s: String)
    ensures
        s@ == spec_katex_file_name(font_id@),
{
    let s = String::from_str("KaTeX_");
    let s = s.concat(font_id);
    s.concat(".ttf")
}

/// The bytes of the KaTeX font with id `font_id`: the bundle's file
/// `katex_file_name(font_id)`, or `None` if the bundle has no such file.
pub fn katex_font(font_id: &str) -> (r: Option<Vec<u8>>) {
    let name = katex_file_name(font_id);
    katex_ttf_bytes(name.as_str())
}

/// The font bytes to use given what the bundle lookup found: the bytes
/// found, or no bytes at all.
pub fn found_or_empty(found: Option<Vec<u8>>) -> (r: Vec<u8>)
    ensures
        match found {
            Some(bytes) => r@ == bytes@,
            None => r@.len() == 0,
        },
{
    match found {
        Some(b) => b,
        None => Vec::new(),
    }
}

/// Bytes of the face used for text that names no font (the bundle's
/// sans-serif regular face), empty if the bundle lacks it.
pub fn default_text_font() -> (r: Vec<u8>) {
    found_or_empty(katex_font("SansSerif-Regular"))
}

} // verus!

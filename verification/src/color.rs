//! Palette tables: an ordered list of colors per palette.
//!
//! Colors are plain values (named terminal colors or RGB triples); the
//! front end maps them onto the drawing surface's own color type.

use vstd::prelude::*;

verus! {

/// The fixed set of palettes a pane can cycle through.
#[derive(Clone, Copy, Debug, PartialEq, Eq, Structural)]
pub enum Palette {
    Classic,
    Rainbow,
    Magma,
}

/// A drawable color: either one of the named terminal colors the palettes
/// use, or a 24-bit RGB triple.
#[derive(Clone, Copy, Debug, PartialEq, Eq, Structural)]
pub enum Color {
    Red,
    LightRed,
    Yellow,
    LightYellow,
    Green,
    LightGreen,
    Blue,
    LightBlue,
    Cyan,
    Magenta,
    LightMagenta,
    Rgb(u8, u8, u8),
}

/// The RGB triple packed into the low 24 bits of `hex`, `0xRRGGBB`.
pub open spec fn rgb_of_hex(hex: u32) -> Color {
    Color::Rgb(((hex >> 16) & 0xff) as u8, ((hex >> 8) & 0xff) as u8, (hex & 0xff) as u8)
}

/// Unpacks a `0xRRGGBB` value into an RGB color.
pub fn from_hex(hex: u32) -> (c: Color)
    ensures
        c == rgb_of_hex(hex),
{
    Color::Rgb(((hex >> 16) & 0xff) as u8, ((hex >> 8) & 0xff) as u8, (hex & 0xff) as u8)
}

/// The ordered color list of each palette.
pub open spec fn palette_colors(palette: Palette) -> Seq<Color> {
    match palette {
        Palette::Classic => seq![
            Color::Red,
            Color::LightRed,
            Color::Yellow,
            Color::LightYellow,
            Color::Green,
            Color::LightGreen,
            Color::Blue,
            Color::Cyan,
        ],
        Palette::Rainbow => seq![
            Color::Magenta,
            Color::LightMagenta,
            Color::Blue,
            Color::LightBlue,
            Color::Cyan,
            Color::Green,
            Color::Yellow,
            Color::LightRed,
        ],
        Palette::Magma => seq![
            rgb_of_hex(0x030412),
            rgb_of_hex(0xD95269),
            rgb_of_hex(0x000004),
            rgb_of_hex(0x0C0927),
            rgb_of_hex(0x231151),
            rgb_of_hex(0x410F75),
            rgb_of_hex(0x5F187F),
            rgb_of_hex(0x7B2382),
            rgb_of_hex(0x982D80),
            rgb_of_hex(0xB63679),
            rgb_of_hex(0xD3436E),
            rgb_of_hex(0xEB5760),
            rgb_of_hex(0xF8765C),
            rgb_of_hex(0xFD9A6A),
            rgb_of_hex(0xFEBF84),
            rgb_of_hex(0xFDDC9E),
            rgb_of_hex(0xFCF2B0),
            rgb_of_hex(0xFCFDBF),
        ],
    }
}

/// Every palette holds at least one color.
pub proof fn lemma_palette_nonempty(palette: Palette)
    ensures
        palette_colors(palette).len() >= 1,
{
}

/// Builds the ordered color list of `palette`.
pub fn get_palette_colors(palette: Palette) -> (colors: Vec<Color>)
    ensures
        colors@ == palette_colors(palette),
{
    let mut colors: Vec<Color> = Vec::new();
    match palette {
        Palette::Classic => {
            colors.push(Color::Red);
            colors.push(Color::LightRed);
            colors.push(Color::Yellow);
            colors.push(Color::LightYellow);
            colors.push(Color::Green);
            colors.push(Color::LightGreen);
            colors.push(Color::Blue);
            colors.push(Color::Cyan);
        }
        Palette::Rainbow => {
            colors.push(Color::Magenta);
            colors.push(Color::LightMagenta);
            colors.push(Color::Blue);
            colors.push(Color::LightBlue);
            colors.push(Color::Cyan);
            colors.push(Color::Green);
            colors.push(Color::Yellow);
            colors.push(Color::LightRed);
        }
        Palette::Magma => {
            colors.push(from_hex(0x030412));
            colors.push(from_hex(0xD95269));
            colors.push(from_hex(0x000004));
            colors.push(from_hex(0x0C0927));
            colors.push(from_hex(0x231151));
            colors.push(from_hex(0x410F75));
            colors.push(from_hex(0x5F187F));
            colors.push(from_hex(0x7B2382));
            colors.push(from_hex(0x982D80));
            colors.push(from_hex(0xB63679));
            colors.push(from_hex(0xD3436E));
            colors.push(from_hex(0xEB5760));
            colors.push(from_hex(0xF8765C));
            colors.push(from_hex(0xFD9A6A));
            colors.push(from_hex(0xFEBF84));
            colors.push(from_hex(0xFDDC9E));
            colors.push(from_hex(0xFCF2B0));
            colors.push(from_hex(0xFCFDBF));
        }
    }
    proof {
        assert(colors@ =~= palette_colors(palette));
    }
    colors
}

/// The palette after `palette` in the space-bar cycle; the cycle is closed
/// and ordered as the variants are declared.
pub open spec fn next_palette(palette: Palette) -> Palette {
    match palette {
        Palette::Classic => Palette::Rainbow,
        Palette::Rainbow => Palette::Magma,
        Palette::Magma => Palette::Classic,
    }
}

} // verus!

//! The color theme: an ember gradient from deep navy through red and orange up to
//! gold. Colors are packed as `0xRRGGBB`.

use vstd::prelude::*;
use vstd::string::*;

use crate::text::{self, decimal};

verus! {

// --- Palette, dark to light ------------------------------------------------

pub const RICH_BLACK: u32 = 0x03071E;

pub const DARK_MAROON: u32 = 0x370617;

pub const ROSEWOOD: u32 = 0x6A040F;

pub const DARK_RED: u32 = 0x9D0208;

pub const RED: u32 = 0xD00000;

pub const VERMILION: u32 = 0xDC2F02;

pub const PERSIMMON: u32 = 0xE85D04;

pub const ORANGE: u32 = 0xF48C06;

pub const AMBER: u32 = 0xFAA307;

pub const GOLD: u32 = 0xFFBA08;

// --- Roles -----------------------------------------------------------------

pub const BG: u32 = RICH_BLACK;

/// Body text.
pub const TEXT: u32 = 0xF5F3F0;

/// Captions and help.
pub const TEXT_DIM: u32 = 0x9A8C88;

pub const PANEL_BORDER: u32 = ROSEWOOD;

pub const HEADER: u32 = VERMILION;

pub const ACCENT: u32 = GOLD;

/// The highlighted row.
pub const SELECTION: u32 = GOLD;

/// A new file.
pub const COPY: u32 = AMBER;

/// A changed file.
pub const OVERWRITE: u32 = ORANGE;

/// Something removed.
pub const DELETE: u32 = RED;

/// A new directory.
pub const CREATE_DIR: u32 = DARK_RED;

pub const SUCCESS: u32 = AMBER;

pub const ERROR: u32 = RED;

/// The palette in display order.
pub open spec fn palette_colors() -> Seq<u32> {
    seq![
        RICH_BLACK,
        DARK_MAROON,
        ROSEWOOD,
        DARK_RED,
        RED,
        VERMILION,
        PERSIMMON,
        ORANGE,
        AMBER,
        GOLD,
    ]
}

/// The palette in display order.
pub fn palette() -> (res: Vec<u32>)
    ensures
        res@ == palette_colors(),
{
    vec![
        RICH_BLACK,
        DARK_MAROON,
        ROSEWOOD,
        DARK_RED,
        RED,
        VERMILION,
        PERSIMMON,
        ORANGE,
        AMBER,
        GOLD,
    ]
}

/// The red, green and blue parts of a packed color.
pub fn rgb(color: u32) -> (res: (u8, u8, u8))
    ensures
        res.0 == color / 65536 % 256,
        res.1 == color / 256 % 256,
        res.2 == color % 256,
{
    ((color / 65536 % 256) as u8, (color / 256 % 256) as u8, (color % 256) as u8)
}

/// The parts of a color as they stand in a terminal escape: `r;g;b`.
pub open spec fn channels(color: u32) -> Seq<char> {
    decimal((color / 65536 % 256) as nat) + ";"@ + decimal((color / 256 % 256) as nat) + ";"@
        + decimal((color % 256) as nat)
}

fn channels_of(color: u32) -> (res: String)
    ensures
        res@ == channels(color),
{
    let (r, g, b) = rgb(color);
    let mut s = text::decimal_of(r as u64);
    s.append(";");
    s.append(text::decimal_of(g as u64).as_str());
    s.append(";");
    s.append(text::decimal_of(b as u64).as_str());
    s
}

/// Wrap `text` in a truecolor foreground escape for plain output.
pub fn ansi_fg(color: u32, text: &str) -> (res: String)
    ensures
        res@ == "\x1b[38;2;"@ + channels(color) + "m"@ + text@ + "\x1b[0m"@,
{
    let mut s = "\x1b[38;2;".to_owned();
    s.append(channels_of(color).as_str());
    s.append("m");
    s.append(text);
    s.append("\x1b[0m");
    s
}

/// One swatch of the color bar.
pub open spec fn swatch(color: u32) -> Seq<char> {
    "\x1b[48;2;"@ + channels(color) + "m  \x1b[0m"@
}

/// A bar with one swatch for each color.
pub open spec fn color_bar(colors: Seq<u32>) -> Seq<char>
    decreases colors.len(),
{
    if colors.len() == 0 {
        Seq::empty()
    } else {
        color_bar(colors.drop_last()) + swatch(colors.last())
    }
}

/// The two lines of the start-up banner: the name in gold, and the palette as a bar.
pub fn banner_lines() -> (res: (String, String))
    ensures
        res.0@ == "\x1b[38;2;"@ + channels(GOLD) + "m"@ + "bukagu"@ + "\x1b[0m"@,
        res.1@ == color_bar(palette_colors()),
{
    let colors = palette();
    let mut bar = String::new();
    for i in 0..colors.len()
        invariant
            bar@ == color_bar(colors@.take(i as int)),
    {
        let mut s = "\x1b[48;2;".to_owned();
        s.append(channels_of(colors[i]).as_str());
        s.append("m  \x1b[0m");
        bar.append(s.as_str());
        assert(colors@.take(i + 1).drop_last() =~= colors@.take(i as int));
    }
    assert(colors@.take(colors@.len() as int) =~= colors@);
    (ansi_fg(GOLD, "bukagu"), bar)
}

} // verus!

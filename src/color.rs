//! Terminal colors and the editor's configuration.

use vstd::prelude::*;

verus! {

#[derive(Debug, Clone, Copy, PartialEq, Eq, Structural)]
pub enum Color {
    Black,
    Red,
    Green,
    Yellow,
    Blue,
    Magenta,
    Cyan,
    White,
    BoldBlack,
    BoldRed,
    BoldGreen,
    BoldYellow,
    BoldBlue,
    BoldMagenta,
    BoldCyan,
    BoldWhite,
    /// One of the 6 x 6 x 6 color cube.
    RGB216 { r: i32, g: i32, b: i32 },
    /// One of the 24 levels of gray.
    Gray(i32),
}

/// A foreground and a background color.
#[derive(Debug, Clone, Copy, PartialEq, Eq, Structural)]
pub struct Colorcell {
    pub fg: Color,
    pub bg: Color,
}

/// The 256-color palette index of `c`.
pub open spec fn spec_colorcode(c: Color) -> int {
    match c {
        Color::Black => 0,
        Color::Red => 1,
        Color::Green => 2,
        Color::Yellow => 3,
        Color::Blue => 4,
        Color::Magenta => 5,
        Color::Cyan => 6,
        Color::White => 7,
        Color::BoldBlack => 8,
        Color::BoldRed => 9,
        Color::BoldGreen => 10,
        Color::BoldYellow => 11,
        Color::BoldBlue => 12,
        Color::BoldMagenta => 13,
        Color::BoldCyan => 14,
        Color::BoldWhite => 15,
        Color::RGB216 { r, g, b } => 16 + (b + 6 * (g + 6 * r)),
        Color::Gray(g) => 232 + g,
    }
}

pub fn colorcode(c: Color) -> (r: i32)
    requires
        i32::MIN <= spec_colorcode(c) <= i32::MAX,
    ensures
        r == spec_colorcode(c),
{
    match c {
        Color::Black => 0,
        Color::Red => 1,
        Color::Green => 2,
        Color::Yellow => 3,
        Color::Blue => 4,
        Color::Magenta => 5,
        Color::Cyan => 6,
        Color::White => 7,
        Color::BoldBlack => 8,
        Color::BoldRed => 9,
        Color::BoldGreen => 10,
        Color::BoldYellow => 11,
        Color::BoldBlue => 12,
        Color::BoldMagenta => 13,
        Color::BoldCyan => 14,
        Color::BoldWhite => 15,
        Color::RGB216 { r, g, b } => {
            let v: i64 = 16 + (b as i64 + 6 * (g as i64 + 6 * r as i64));
            v as i32
        },
        Color::Gray(g) => {
            let v: i64 = 232 + g as i64;
            v as i32
        },
    }
}

/// Options and colors of the editor.
#[derive(Clone, Copy)]
pub struct Config {
    pub draw_screen: bool,
    pub draw_colors: bool,
    pub retain_frame: bool,
    pub no_raw_mode: bool,
    pub debug_console: bool,
    pub debug_bounds: bool,
    pub debug_latency: bool,
    pub relative_lineno: bool,
    pub cursor_show_line: bool,
    pub cursor_show_column: bool,
    pub color_default: Colorcell,
    pub color_header_active: Colorcell,
    pub color_header_inactive: Colorcell,
    pub color_footer: Colorcell,
    pub color_lineno: Colorcell,
    pub color_console: Colorcell,
    pub color_cursor_lines: Colorcell,
    pub color_mode_command: Colorcell,
    pub color_mode_insert: Colorcell,
    pub color_mode_replace: Colorcell,
    pub color_mode_exit: Colorcell,
    pub tab_expansion: i32,
    pub logfile: &'static str,
}

pub open spec fn cell(fg: Color, bg: Color) -> Colorcell {
    Colorcell { fg, bg }
}

/// Every color of the configuration has a palette index.
pub open spec fn config_colors_ok(c: Config) -> bool {
    let cells = seq![
        c.color_default,
        c.color_header_active,
        c.color_header_inactive,
        c.color_footer,
        c.color_lineno,
        c.color_console,
        c.color_cursor_lines,
        c.color_mode_command,
        c.color_mode_insert,
        c.color_mode_replace,
        c.color_mode_exit,
    ];
    forall|i: int|
        0 <= i < cells.len() ==> 0 <= spec_colorcode(#[trigger] cells[i].fg) < 256 && 0
            <= spec_colorcode(cells[i].bg) < 256
}

/// The configuration the editor runs with.
pub fn conf() -> (c: Config)
    ensures
        config_colors_ok(c),
        c.draw_screen,
        c.draw_colors,
        !c.retain_frame,
        c.debug_console,
        c.debug_bounds,
        c.relative_lineno,
        c.tab_expansion == 4,
        c.color_header_active == cell(Color::Black, Color::Yellow),
        c.color_lineno == cell(Color::Green, Color::White),
        c.color_console == cell(Color::White, Color::Gray(12)),
        c.color_cursor_lines == cell(Color::Black, Color::Gray(15)),
        c.color_mode_command == cell(Color::BoldWhite, Color::Black),
        c.color_mode_insert == cell(Color::BoldWhite, Color::Red),
        c.color_mode_replace == cell(Color::BoldWhite, Color::Magenta),
        c.color_mode_exit == cell(Color::Magenta, Color::Magenta),
{
    let c = Config {
        draw_screen: true,
        draw_colors: true,
        retain_frame: false,
        no_raw_mode: false,
        debug_console: true,
        debug_bounds: true,
        debug_latency: true,
        relative_lineno: true,
        cursor_show_line: true,
        cursor_show_column: true,
        color_default: Colorcell { fg: Color::Black, bg: Color::White },
        color_header_active: Colorcell { fg: Color::Black, bg: Color::Yellow },
        color_header_inactive: Colorcell { fg: Color::Gray(2), bg: Color::Cyan },
        color_footer: Colorcell { fg: Color::White, bg: Color::Gray(14) },
        color_lineno: Colorcell { fg: Color::Green, bg: Color::White },
        color_console: Colorcell { fg: Color::White, bg: Color::Gray(12) },
        color_cursor_lines: Colorcell { fg: Color::Black, bg: Color::Gray(15) },
        color_mode_command: Colorcell { fg: Color::BoldWhite, bg: Color::Black },
        color_mode_insert: Colorcell { fg: Color::BoldWhite, bg: Color::Red },
        color_mode_replace: Colorcell { fg: Color::BoldWhite, bg: Color::Magenta },
        color_mode_exit: Colorcell { fg: Color::Magenta, bg: Color::Magenta },
        tab_expansion: 4,
        logfile: "/tmp/czl.log",
    };
    c
}

} // verus!

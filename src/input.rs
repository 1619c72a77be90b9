//! Keyboard and mouse input: key codes and the decoding of the byte
//! stream that the terminal sends.

use vstd::prelude::*;
use crate::geometry::{Pos, pos};

verus! {

pub const CTRL_AT: char = '\x00';

pub const CTRL_A: char = '\x01';

pub const CTRL_B: char = '\x02';

pub const CTRL_C: char = '\x03';

pub const CTRL_D: char = '\x04';

pub const CTRL_E: char = '\x05';

pub const CTRL_F: char = '\x06';

pub const CTRL_G: char = '\x07';

pub const CTRL_H: char = '\x08';

pub const CTRL_I: char = '\x09';

pub const CTRL_J: char = '\x0a';

pub const CTRL_K: char = '\x0b';

pub const CTRL_L: char = '\x0c';

pub const CTRL_M: char = '\x0d';

pub const CTRL_N: char = '\x0e';

pub const CTRL_O: char = '\x0f';

pub const CTRL_P: char = '\x10';

pub const CTRL_Q: char = '\x11';

pub const CTRL_R: char = '\x12';

pub const CTRL_S: char = '\x13';

pub const CTRL_T: char = '\x14';

pub const CTRL_U: char = '\x15';

pub const CTRL_V: char = '\x16';

pub const CTRL_W: char = '\x17';

pub const CTRL_X: char = '\x18';

pub const CTRL_Y: char = '\x19';

pub const CTRL_Z: char = '\x1a';

pub const CTRL_LEFT_BRACKET: char = '\x1b';

pub const CTRL_BACKSLASH: char = '\x1c';

pub const CTRL_RIGHT_BRACKET: char = '\x1d';

pub const CTRL_CARET: char = '\x1e';

pub const CTRL_UNDERSCORE: char = '\x1f';

pub const SPACE: char = '\x20';

pub const DEL: char = '\x7f';

pub const ESC: char = CTRL_LEFT_BRACKET;

pub const BACKSPACE: char = CTRL_H;

pub const TAB: char = CTRL_I;

pub const LINE_FEED: char = CTRL_J;

pub const VTAB: char = CTRL_K;

pub const NEW_PAGE: char = CTRL_L;

pub const ENTER: char = CTRL_M;

/// Sent by the terminal side when the window was resized.
pub const RESIZE: char = '\u{ff}';

#[derive(Debug, Clone, Copy, PartialEq, Eq, Structural)]
pub enum Input {
    Noinput,
    Error,
    UnknownEscSeq,
    Key(char),
    Click(Pos),
    ClickRelease(Pos),
    /// Shift + tab, sent as ESC [ Z.
    EscZ,
    Resize,
}

pub fn is_printable(c: char) -> (r: bool)
    ensures
        r == (SPACE <= c && c < DEL),
{
    SPACE <= c && c < DEL
}

/// The names of the keys that have one of their own.
pub open spec fn key_name(c: char) -> Option<&'static str> {
    if c == CTRL_AT {
        Some("^@")
    } else if c == CTRL_A {
        Some("^A")
    } else if c == CTRL_B {
        Some("^B")
    } else if c == CTRL_C {
        Some("^C")
    } else if c == CTRL_D {
        Some("^D")
    } else if c == CTRL_E {
        Some("^E")
    } else if c == CTRL_F {
        Some("^F")
    } else if c == CTRL_G {
        Some("^G")
    } else if c == BACKSPACE {
        Some("Backspace")
    } else if c == TAB {
        Some("TAB")
    } else if c == CTRL_J {
        Some("^J")
    } else if c == CTRL_K {
        Some("^K")
    } else if c == CTRL_L {
        Some("^L")
    } else if c == ENTER {
        Some("Enter")
    } else if c == CTRL_N {
        Some("^N")
    } else if c == CTRL_O {
        Some("^O")
    } else if c == CTRL_P {
        Some("^P")
    } else if c == CTRL_Q {
        Some("^Q")
    } else if c == CTRL_R {
        Some("^R")
    } else if c == CTRL_S {
        Some("^S")
    } else if c == CTRL_T {
        Some("^T")
    } else if c == CTRL_U {
        Some("^U")
    } else if c == CTRL_V {
        Some("^V")
    } else if c == CTRL_W {
        Some("^W")
    } else if c == CTRL_X {
        Some("^X")
    } else if c == CTRL_Y {
        Some("^Y")
    } else if c == CTRL_Z {
        Some("^Z")
    } else if c == ESC {
        Some("Esc")
    } else if c == CTRL_BACKSLASH {
        Some("^\\")
    } else if c == CTRL_RIGHT_BRACKET {
        Some("^]")
    } else if c == CTRL_CARET {
        Some("^^")
    } else if c == CTRL_UNDERSCORE {
        Some("^_")
    } else if c == SPACE {
        Some("Space")
    } else if c == DEL {
        Some("Del")
    } else {
        None
    }
}

impl Input {
    /// The name of key `c`, when it has one of its own.
    pub fn key_descr(c: char) -> (r: Option<&'static str>)
        ensures
            r == key_name(c),
    {
        if c == CTRL_AT {
            Some("^@")
        } else if c == CTRL_A {
            Some("^A")
        } else if c == CTRL_B {
            Some("^B")
        } else if c == CTRL_C {
            Some("^C")
        } else if c == CTRL_D {
            Some("^D")
        } else if c == CTRL_E {
            Some("^E")
        } else if c == CTRL_F {
            Some("^F")
        } else if c == CTRL_G {
            Some("^G")
        } else if c == BACKSPACE {
            Some("Backspace")
        } else if c == TAB {
            Some("TAB")
        } else if c == CTRL_J {
            Some("^J")
        } else if c == CTRL_K {
            Some("^K")
        } else if c == CTRL_L {
            Some("^L")
        } else if c == ENTER {
            Some("Enter")
        } else if c == CTRL_N {
            Some("^N")
        } else if c == CTRL_O {
            Some("^O")
        } else if c == CTRL_P {
            Some("^P")
        } else if c == CTRL_Q {
            Some("^Q")
        } else if c == CTRL_R {
            Some("^R")
        } else if c == CTRL_S {
            Some("^S")
        } else if c == CTRL_T {
            Some("^T")
        } else if c == CTRL_U {
            Some("^U")
        } else if c == CTRL_V {
            Some("^V")
        } else if c == CTRL_W {
            Some("^W")
        } else if c == CTRL_X {
            Some("^X")
        } else if c == CTRL_Y {
            Some("^Y")
        } else if c == CTRL_Z {
            Some("^Z")
        } else if c == ESC {
            Some("Esc")
        } else if c == CTRL_BACKSLASH {
            Some("^\\")
        } else if c == CTRL_RIGHT_BRACKET {
            Some("^]")
        } else if c == CTRL_CARET {
            Some("^^")
        } else if c == CTRL_UNDERSCORE {
            Some("^_")
        } else if c == SPACE {
            Some("Space")
        } else if c == DEL {
            Some("Del")
        } else {
            None
        }
    }
}

/// Where the decoding of an input sequence stands.
#[derive(Debug, Clone, Copy, PartialEq, Eq, Structural)]
pub enum Decoder {
    /// Between two inputs.
    Start,
    /// After an escape byte.
    Escape,
    /// After ESC [.
    Bracket,
    /// After ESC [ M: the button byte comes next.
    MouseButton,
    /// After the button byte.
    MouseX(u32),
    /// After the button and column bytes.
    MouseY(u32, i32),
}

/// A mouse coordinate: the byte less 33, wrapped by 255 when negative.
pub open spec fn mouse_coord(c: char) -> int {
    let v = c as int - 33;
    if v < 0 {
        v + 255
    } else {
        v
    }
}

/// What a mouse button byte reports, its two low bits telling press from release.
pub open spec fn mouse_event(button: int, x: int, y: int) -> Input {
    let p = Pos { x: x as i32, y: y as i32 };
    if button % 4 == 3 {
        Input::ClickRelease(p)
    } else {
        Input::Click(p)
    }
}

/// One decoding step on the next byte `c`, or on `None` when no byte is
/// available at once: the next state, and the input when one is complete.
pub open spec fn decode(state: Decoder, c: Option<char>) -> (Decoder, Option<Input>) {
    match (state, c) {
        (Decoder::Start, Some(c)) => if c == RESIZE {
            (Decoder::Start, Some(Input::Resize))
        } else if c != ESC {
            (Decoder::Start, Some(Input::Key(c)))
        } else {
            (Decoder::Escape, None)
        },
        (Decoder::Escape, None) => (Decoder::Start, Some(Input::Key(ESC))),
        (Decoder::Escape, Some(c)) => if c == '[' {
            (Decoder::Bracket, None)
        } else {
            (Decoder::Start, Some(Input::UnknownEscSeq))
        },
        (Decoder::Bracket, Some(c)) => if c == 'M' {
            (Decoder::MouseButton, None)
        } else if c == 'Z' {
            (Decoder::Start, Some(Input::EscZ))
        } else {
            (Decoder::Start, Some(Input::UnknownEscSeq))
        },
        (Decoder::MouseButton, Some(c)) => (Decoder::MouseX(c as u32), None),
        (Decoder::MouseX(b), Some(c)) => (Decoder::MouseY(b, mouse_coord(c) as i32), None),
        (Decoder::MouseY(b, x), Some(c)) => (
            Decoder::Start,
            Some(mouse_event(b as int, x as int, mouse_coord(c))),
        ),
        (s, None) => (s, None),
    }
}

impl Decoder {
    /// Whether the next step is on a byte that is available at once or
    /// none: only right after an escape byte.
    pub fn wants_immediate(self) -> (r: bool)
        ensures
            r == (self == Decoder::Escape),
    {
        match self {
            Decoder::Escape => true,
            _ => false,
        }
    }
}

fn coord(c: char) -> (r: i32)
    ensures
        r == mouse_coord(c),
{
    let v = c as u32 as i32 - 33;
    if v < 0 {
        v + 255
    } else {
        v
    }
}

/// Decodes the next byte `c` of the input (`None`: no byte is available at
/// once), returning the next state and the input when one is complete.
pub fn pull_input(state: Decoder, c: Option<char>) -> (r: (Decoder, Option<Input>))
    ensures
        r == decode(state, c),
{
    match (state, c) {
        (Decoder::Start, Some(c)) => {
            if c == RESIZE {
                (Decoder::Start, Some(Input::Resize))
            } else if c != ESC {
                (Decoder::Start, Some(Input::Key(c)))
            } else {
                (Decoder::Escape, None)
            }
        },
        (Decoder::Escape, None) => (Decoder::Start, Some(Input::Key(ESC))),
        (Decoder::Escape, Some(c)) => {
            if c == '[' {
                (Decoder::Bracket, None)
            } else {
                (Decoder::Start, Some(Input::UnknownEscSeq))
            }
        },
        (Decoder::Bracket, Some(c)) => {
            if c == 'M' {
                (Decoder::MouseButton, None)
            } else if c == 'Z' {
                (Decoder::Start, Some(Input::EscZ))
            } else {
                (Decoder::Start, Some(Input::UnknownEscSeq))
            }
        },
        (Decoder::MouseButton, Some(c)) => (Decoder::MouseX(c as u32), None),
        (Decoder::MouseX(b), Some(c)) => (Decoder::MouseY(b, coord(c)), None),
        (Decoder::MouseY(b, x), Some(c)) => {
            let y = coord(c);
            let p = pos(x, y);
            let e = if b % 4 == 3 {
                Input::ClickRelease(p)
            } else {
                Input::Click(p)
            };
            (Decoder::Start, Some(e))
        },
        (s, None) => (s, None),
    }
}

} // verus!

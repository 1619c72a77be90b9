//! The cursor and the viewport of a file, in text coordinates.

use vstd::prelude::*;
use crate::geometry::{Pos, Rec, pos, clamp_int};
use crate::text::Buffer;

verus! {

/// Line counts and line lengths stay below this, so that every text
/// coordinate and every viewport edge fits an `i32`.
pub const TEXT_LIMIT: i32 = 1_000_000_000;

/// The lines stay within the coordinate limits.
pub open spec fn within_limits(lines: Seq<Seq<u8>>) -> bool {
    &&& lines.len() <= TEXT_LIMIT
    &&& forall|l: int| 0 <= l < lines.len() ==> (#[trigger] lines[l]).len() <= TEXT_LIMIT
}

/// `p` brought onto the text: on an existing line, at most on its last byte
/// (column 0 on an empty line).
pub open spec fn clamp_cursor(lines: Seq<Seq<u8>>, p: Pos) -> Pos {
    let y = clamp_int(p.y as int, 0, lines.len() - 1);
    let last = lines[y].len() - 1;
    let x = if last < 0 {
        0
    } else {
        clamp_int(p.x as int, 0, last)
    };
    Pos { x: x as i32, y: y as i32 }
}

/// The cursor stands on the text.
pub open spec fn cursor_on_text(lines: Seq<Seq<u8>>, p: Pos) -> bool {
    &&& 0 <= p.y < lines.len()
    &&& 0 <= p.x
    &&& (p.x <= lines[p.y as int].len() - 1 || p.x == 0)
}

/// One axis of the viewport `[lo, hi)` after following `p` with the least
/// move (and made one wide when it was empty).
pub open spec fn follow(lo: int, hi: int, p: int) -> (int, int) {
    if p < lo {
        (p, if hi - lo < 1 { p + 1 } else { p + (hi - lo) })
    } else if p >= hi {
        (if hi - lo < 1 { p } else { p + 1 - (hi - lo) }, p + 1)
    } else {
        (lo, hi)
    }
}

/// The viewport `area` after following `p`.
pub open spec fn scrolled(area: Rec, p: Pos) -> Rec {
    let fx = follow(area.min.x as int, area.max.x as int, p.x as int);
    let fy = follow(area.min.y as int, area.max.y as int, p.y as int);
    Rec { min: Pos { x: fx.0 as i32, y: fy.0 as i32 }, max: Pos { x: fx.1 as i32, y: fy.1 as i32 } }
}

/// The viewport `area` of the same size, moved to the left edge and so
/// that the cursor `c` is in its middle row, within the coordinate range.
pub open spec fn recentered(area: Rec, c: Pos) -> Rec {
    let w = area.max.x - area.min.x;
    let h = area.max.y - area.min.y;
    let y = clamp_int(c.y - h / 2, 0, i32::MAX / 2 - h);
    Rec { min: Pos { x: 0, y: y as i32 }, max: Pos { x: w as i32, y: (y + h) as i32 } }
}

#[derive(Debug, Clone, Copy, PartialEq, Eq, Structural)]
pub enum MovementMode {
    Chars,
    Lines,
    Blocks,
    Words,
    Digits,
    Numbers,
    Paragraphs,
    Parens,
    Brackets,
    Braces,
    Selection,
    Pages,
}

/// Navigation state of a file: the cursor and the viewport, in text
/// coordinates.
pub struct FileView {
    pub filepath: String,
    pub relative_lineno: bool,
    pub movement_mode: MovementMode,
    pub show_token: bool,
    pub show_neighbor: bool,
    pub show_selection: bool,
    pub is_active: bool,
    pub cursor: Pos,
    pub cursor_memory: Pos,
    pub filearea: Rec,
}

/// How far a page moves.
pub const PAGE_LINES: i32 = 50;

impl FileView {
    /// The viewport lies in the non-negative quadrant, below half the `i32` range.
    pub open spec fn wf(&self) -> bool {
        &&& 0 <= self.filearea.min.x <= self.filearea.max.x <= i32::MAX / 2
        &&& 0 <= self.filearea.min.y <= self.filearea.max.y <= i32::MAX / 2
    }

    /// A view of `filepath` at its start, showing `screensize` cells.
    pub fn mk_fileview(filepath: String, screensize: Pos, relative_lineno: bool) -> (v: FileView)
        requires
            0 <= screensize.x <= i32::MAX / 2,
            0 <= screensize.y <= i32::MAX / 2,
        ensures
            v.wf(),
            v.cursor == (Pos { x: 0, y: 0 }),
            v.filearea == (Rec { min: Pos { x: 0, y: 0 }, max: screensize }),
            v.relative_lineno == relative_lineno,
            v.is_active,
    {
        FileView {
            filepath,
            relative_lineno,
            movement_mode: MovementMode::Chars,
            show_token: false,
            show_neighbor: false,
            show_selection: false,
            is_active: true,
            cursor: pos(0, 0),
            cursor_memory: pos(0, 0),
            filearea: screensize.rec(),
        }
    }

    /// `p` brought onto the text of `buffer` (which has lines).
    pub fn cursor_adjust(buffer: &Buffer, p: Pos) -> (r: Pos)
        requires
            buffer.wf(),
            0 < buffer.history().lines.len(),
            within_limits(buffer.history().lines),
        ensures
            r == clamp_cursor(buffer.history().lines, p),
            cursor_on_text(buffer.history().lines, r),
    {
        let ghost lines = buffer.history().lines;
        let n = buffer.nlines();
        let mut y = p.y;
        if y > n - 1 {
            y = n - 1;
        }
        if y < 0 {
            y = 0;
        }
        let len = buffer.line_len(y as usize) as i32;
        let mut x = p.x;
        if x > len - 1 {
            x = len - 1;
        }
        if x < 0 {
            x = 0;
        }
        assert(lines[y as int].len() <= TEXT_LIMIT);
        pos(x, y)
    }

    /// The position after `p`: the next byte, or the start of the next line.
    pub fn cursor_next(buffer: &Buffer, p: Pos) -> (r: Pos)
        requires
            buffer.wf(),
            within_limits(buffer.history().lines),
            cursor_on_text(buffer.history().lines, p),
        ensures
            ({
                let lines = buffer.history().lines;
                r == if p.x < lines[p.y as int].len() - 1 {
                    Pos { x: (p.x + 1) as i32, y: p.y }
                } else if p.y < lines.len() - 1 {
                    Pos { x: 0, y: (p.y + 1) as i32 }
                } else {
                    p
                }
            }),
    {
        let ghost lines = buffer.history().lines;
        assert(lines[p.y as int].len() <= TEXT_LIMIT);
        if p.x < buffer.line_len(p.y as usize) as i32 - 1 {
            return p.add(pos(1, 0));
        }
        if p.y < buffer.nlines() - 1 {
            return pos(0, p.y + 1);
        }
        p
    }

    /// The position before `p`: the previous byte, or the last byte of the
    /// previous line.
    pub fn cursor_prev(buffer: &Buffer, p: Pos) -> (r: Pos)
        requires
            buffer.wf(),
            within_limits(buffer.history().lines),
            cursor_on_text(buffer.history().lines, p),
        ensures
            ({
                let lines = buffer.history().lines;
                r == if p.x > 0 {
                    Pos { x: (p.x - 1) as i32, y: p.y }
                } else if p.y > 0 {
                    Pos {
                        x: (if lines[p.y - 1].len() > 0 { lines[p.y - 1].len() - 1 } else { 0 }) as i32,
                        y: (p.y - 1) as i32,
                    }
                } else {
                    p
                }
            }),
    {
        let ghost lines = buffer.history().lines;
        if p.x > 0 {
            return p.sub(pos(1, 0));
        }
        if p.y > 0 {
            let y = p.y - 1;
            assert(lines[y as int].len() <= TEXT_LIMIT);
            let len = buffer.line_len(y as usize) as i32;
            let x = if len - 1 > 0 {
                len - 1
            } else {
                0
            };
            return pos(x, y);
        }
        p
    }

    /// Brings the cursor onto the text, then moves the viewport the least
    /// needed to show it. Does nothing to a buffer without lines.
    pub fn update(&mut self, buffer: &Buffer)
        requires
            old(self).wf(),
            buffer.wf(),
            within_limits(buffer.history().lines),
        ensures
            final(self).wf(),
            final(self).filepath == old(self).filepath,
            final(self).relative_lineno == old(self).relative_lineno,
            final(self).is_active == old(self).is_active,
            buffer.history().lines.len() == 0 ==> *final(self) == *old(self),
            buffer.history().lines.len() > 0 ==> {
                &&& final(self).cursor == clamp_cursor(buffer.history().lines, old(self).cursor)
                &&& final(self).filearea == scrolled(old(self).filearea, final(self).cursor)
                &&& cursor_on_text(buffer.history().lines, final(self).cursor)
                &&& final(self).filearea.covers(final(self).cursor)
                &&& old(self).filearea.covers(final(self).cursor) ==> final(self).filearea
                    == old(self).filearea
            },
    {
        if buffer.nlines() == 0 {
            return;
        }
        let p = FileView::cursor_adjust(buffer, self.cursor);
        self.cursor = p;
        let (x0, x1) = follow_axis(self.filearea.min.x, self.filearea.max.x, p.x);
        let (y0, y1) = follow_axis(self.filearea.min.y, self.filearea.max.y, p.y);
        self.filearea = Rec { min: pos(x0, y0), max: pos(x1, y1) };
    }

    /// Centers the viewport vertically on the cursor, keeping its size.
    pub fn recenter(&mut self)
        requires
            old(self).wf(),
        ensures
            final(self).wf(),
            final(self).cursor == old(self).cursor,
            final(self).filearea == recentered(old(self).filearea, old(self).cursor),
    {
        let w = self.filearea.max.x - self.filearea.min.x;
        let h = self.filearea.max.y - self.filearea.min.y;
        let top = i32::MAX / 2 - h;
        let y = if self.cursor.y < h / 2 {
            0
        } else if self.cursor.y - h / 2 > top {
            top
        } else {
            self.cursor.y - h / 2
        };
        self.filearea = pos(0, y).extrude(pos(w, h));
    }

    /// Moves the cursor a page down, at most to the last line.
    pub fn go_page_down(&mut self, buffer: &Buffer)
        requires
            buffer.wf(),
            within_limits(buffer.history().lines),
            old(self).cursor.y <= TEXT_LIMIT + 2,
        ensures
            final(self).cursor.x == old(self).cursor.x,
            final(self).cursor.y == if old(self).cursor.y + PAGE_LINES < buffer.history().lines.len() - 1 {
                old(self).cursor.y + PAGE_LINES
            } else {
                buffer.history().lines.len() - 1
            },
            final(self).filearea == old(self).filearea,
    {
        let last = buffer.nlines() - 1;
        let y = if self.cursor.y + PAGE_LINES < last {
            self.cursor.y + PAGE_LINES
        } else {
            last
        };
        self.cursor = pos(self.cursor.x, y);
    }

    /// Moves the cursor a page up, at most to the first line.
    pub fn go_page_up(&mut self)
        requires
            old(self).cursor.y >= -2,
        ensures
            final(self).cursor.x == old(self).cursor.x,
            final(self).cursor.y == if old(self).cursor.y - PAGE_LINES > 0 {
                old(self).cursor.y - PAGE_LINES
            } else {
                0
            },
            final(self).filearea == old(self).filearea,
    {
        let y = if self.cursor.y - PAGE_LINES > 0 {
            self.cursor.y - PAGE_LINES
        } else {
            0
        };
        self.cursor = pos(self.cursor.x, y);
    }

    /// Moves the cursor to the first line.
    pub fn go_file_start(&mut self)
        ensures
            final(self).cursor == (Pos { x: old(self).cursor.x, y: 0 }),
            final(self).filearea == old(self).filearea,
    {
        self.cursor = pos(self.cursor.x, 0);
    }

    /// Moves the cursor to the last line.
    pub fn go_file_end(&mut self, buffer: &Buffer)
        requires
            buffer.wf(),
            within_limits(buffer.history().lines),
        ensures
            final(self).cursor == (Pos { x: old(self).cursor.x, y: (buffer.history().lines.len() - 1) as i32 }),
            final(self).filearea == old(self).filearea,
    {
        self.cursor = pos(self.cursor.x, buffer.nlines() - 1);
    }
}

/// One axis of the viewport after following `p` (see `follow`).
fn follow_axis(lo: i32, hi: i32, p: i32) -> (r: (i32, i32))
    requires
        0 <= lo <= hi <= i32::MAX / 2,
        0 <= p <= TEXT_LIMIT,
    ensures
        r.0 == follow(lo as int, hi as int, p as int).0,
        r.1 == follow(lo as int, hi as int, p as int).1,
        0 <= r.0 <= p < r.1 <= i32::MAX / 2,
{
    if p < lo {
        if hi - lo < 1 {
            (p, p + 1)
        } else {
            (p, p + (hi - lo))
        }
    } else if p >= hi {
        if hi - lo < 1 {
            (p, p + 1)
        } else {
            (p + 1 - (hi - lo), p + 1)
        }
    } else {
        (lo, hi)
    }
}

} // verus!

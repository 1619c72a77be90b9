//! Compositing: a grid of colored cells with clipped writes, serialized
//! into terminal escape sequences.

use vstd::prelude::*;
use vstd::arithmetic::div_mod::{
    lemma_fundamental_div_mod_converse_div,
    lemma_fundamental_div_mod_converse_mod,
};
use crate::geometry::{Pos, Rec, pos, clamp_int};
use crate::color::{Color, Colorcell, colorcode, spec_colorcode};
use crate::util::{decimal, right_aligned, itoa10_left, itoa10_right, Debugconsole, SPACE_BYTE};
use crate::color::conf;
use crate::text::Buffer;

verus! {

pub const FRAME_DEFAULT_TEXT: u8 = 32;

pub const FRAME_DEFAULT_FG: i32 = 0;

pub const FRAME_DEFAULT_BG: i32 = 7;

#[derive(Debug, Clone, Copy, PartialEq, Eq, Structural)]
pub enum Draw {
    /// Nothing to redraw.
    Nothing,
    /// Only the header.
    Header,
    /// Text and header.
    All,
}

/// Cell `(x, y)` of a grid `w` wide, stored row after row.
pub open spec fn cell_index(w: int, x: int, y: int) -> int {
    y * w + x
}

proof fn lemma_cell_index(w: int, h: int, x: int, y: int)
    requires
        0 <= x < w,
        0 <= y < h,
    ensures
        0 <= cell_index(w, x, y) < w * h,
        cell_index(w, x, y) % w == x,
        cell_index(w, x, y) / w == y,
{
    assert(0 <= y * w) by (nonlinear_arith)
        requires
            0 <= y,
            0 < w,
    ;
    assert(y * w + x < w * h) by (nonlinear_arith)
        requires
            x < w,
            y + 1 <= h,
            0 < w,
    ;
    lemma_fundamental_div_mod_converse_mod(y * w + x, w, y, x);
    lemma_fundamental_div_mod_converse_div(y * w + x, w, y, x);
}

proof fn lemma_cell_index_injective(w: int, h: int, x1: int, y1: int, x2: int, y2: int)
    requires
        0 <= x1 < w,
        0 <= y1 < h,
        0 <= x2 < w,
        0 <= y2 < h,
        cell_index(w, x1, y1) == cell_index(w, x2, y2),
    ensures
        x1 == x2,
        y1 == y2,
{
    lemma_cell_index(w, h, x1, y1);
    lemma_cell_index(w, h, x2, y2);
}

/// The grid of cells that a frame is composed in, plus the bytes of the
/// last frame rendered.
pub struct Framebuffer {
    window: Pos,
    text: Vec<u8>,
    fg: Vec<i32>,
    bg: Vec<i32>,
    cursor: Pos,
    buffer: Vec<u8>,
}

impl Framebuffer {
    pub closed spec fn width(&self) -> int {
        self.window.x as int
    }

    pub closed spec fn height(&self) -> int {
        self.window.y as int
    }

    pub closed spec fn wf(&self) -> bool {
        &&& 0 < self.window.x
        &&& 0 < self.window.y
        &&& self.window.x * self.window.y <= i32::MAX
        &&& self.text@.len() == self.window.x * self.window.y
        &&& self.fg@.len() == self.window.x * self.window.y
        &&& self.bg@.len() == self.window.x * self.window.y
        &&& 0 <= self.cursor.x < self.window.x
        &&& 0 <= self.cursor.y < self.window.y
        &&& forall|i: int| 0 <= i < self.fg@.len() ==> 0 <= #[trigger] self.fg@[i] < 256
        &&& forall|i: int| 0 <= i < self.bg@.len() ==> 0 <= #[trigger] self.bg@[i] < 256
    }

    /// The byte shown in cell `(x, y)`.
    pub closed spec fn glyph(&self, x: int, y: int) -> u8 {
        self.text@[cell_index(self.width(), x, y)]
    }

    /// The foreground color code of cell `(x, y)`.
    pub closed spec fn fg_at(&self, x: int, y: int) -> i32 {
        self.fg@[cell_index(self.width(), x, y)]
    }

    /// The background color code of cell `(x, y)`.
    pub closed spec fn bg_at(&self, x: int, y: int) -> i32 {
        self.bg@[cell_index(self.width(), x, y)]
    }

    /// Every cell is blank: a space in the default colors.
    pub open spec fn is_blank(&self) -> bool {
        forall|x: int, y: int|
            self.in_grid(x, y) ==> #[trigger] self.glyph(x, y) == FRAME_DEFAULT_TEXT && self.fg_at(
                x,
                y,
            ) == FRAME_DEFAULT_FG && self.bg_at(x, y) == FRAME_DEFAULT_BG
    }

    /// Where the terminal cursor is placed.
    pub closed spec fn cursor_pos(&self) -> Pos {
        self.cursor
    }

    /// The bytes of the last frame rendered.
    pub closed spec fn output(&self) -> Seq<u8> {
        self.buffer@
    }

    pub open spec fn in_grid(&self, x: int, y: int) -> bool {
        0 <= x < self.width() && 0 <= y < self.height()
    }

    /// A frame of `window.x` columns and `window.y` rows of blank cells.
    pub fn mk_framebuffer(window: Pos) -> (f: Framebuffer)
        requires
            0 < window.x,
            0 < window.y,
            window.x * window.y <= i32::MAX,
        ensures
            f.wf(),
            f.width() == window.x,
            f.height() == window.y,
            f.cursor_pos() == pos_origin(),
            f.is_blank(),
    {
        let len = window.x as usize * window.y as usize;
        let fb = Framebuffer {
            window,
            text: filled(FRAME_DEFAULT_TEXT, len),
            fg: filled(FRAME_DEFAULT_FG, len),
            bg: filled(FRAME_DEFAULT_BG, len),
            cursor: pos(0, 0),
            buffer: Vec::new(),
        };
        assert(fb.width() == window.x && fb.height() == window.y);
        proof {
            assert forall|x: int, y: int| fb.in_grid(x, y) implies #[trigger] fb.glyph(x, y)
                == FRAME_DEFAULT_TEXT && fb.fg_at(x, y) == FRAME_DEFAULT_FG && fb.bg_at(x, y)
                == FRAME_DEFAULT_BG by {
                lemma_cell_index(fb.width(), fb.height(), x, y);
                let i = cell_index(fb.width(), x, y);
                assert(fb.text@[i] == FRAME_DEFAULT_TEXT);
                assert(fb.fg@[i] == FRAME_DEFAULT_FG);
                assert(fb.bg@[i] == FRAME_DEFAULT_BG);
            }
        }
        assert(fb.cursor_pos() == pos_origin());
        assert(fb.wf());
        assert(fb.is_blank());
        fb
    }

    /// Blanks every cell.
    pub fn clear(&mut self)
        requires
            old(self).wf(),
        ensures
            final(self).wf(),
            final(self).width() == old(self).width(),
            final(self).height() == old(self).height(),
            final(self).cursor_pos() == old(self).cursor_pos(),
            final(self).output() == old(self).output(),
            final(self).is_blank(),
    {
        let n = self.text.len();
        let mut i: usize = 0;
        while i < n
            invariant
                self.wf(),
                self.window == old(self).window,
                self.cursor == old(self).cursor,
                self.buffer == old(self).buffer,
                n == self.text@.len(),
                i <= n,
                forall|j: int| 0 <= j < i ==> (#[trigger] self.text@[j]) == FRAME_DEFAULT_TEXT,
                forall|j: int| 0 <= j < i ==> (#[trigger] self.fg@[j]) == FRAME_DEFAULT_FG,
                forall|j: int| 0 <= j < i ==> (#[trigger] self.bg@[j]) == FRAME_DEFAULT_BG,
            decreases n - i,
        {
            let ghost prev = *self;
            self.text.set(i, FRAME_DEFAULT_TEXT);
            self.fg.set(i, FRAME_DEFAULT_FG);
            self.bg.set(i, FRAME_DEFAULT_BG);
            assert(self.text@ == prev.text@.update(i as int, FRAME_DEFAULT_TEXT));
            i = i + 1;
        }
        proof {
            assert forall|x: int, y: int| self.in_grid(x, y) implies #[trigger] self.glyph(x, y)
                == FRAME_DEFAULT_TEXT && self.fg_at(x, y) == FRAME_DEFAULT_FG && self.bg_at(x, y)
                == FRAME_DEFAULT_BG by {
                lemma_cell_index(self.width(), self.height(), x, y);
            }
        }
    }

    /// Writes `src` from cell `p` on, cut at the end of the row.
    pub fn put_line(&mut self, p: Pos, src: &[u8])
        requires
            old(self).wf(),
            0 <= p.x <= old(self).width(),
            0 <= p.y < old(self).height(),
        ensures
            final(self).wf(),
            final(self).width() == old(self).width(),
            final(self).height() == old(self).height(),
            final(self).cursor_pos() == old(self).cursor_pos(),
            forall|x: int, y: int|
                final(self).in_grid(x, y) ==> #[trigger] final(self).glyph(x, y) == if y == p.y
                    && p.x <= x < p.x + src@.len() {
                    src@[x - p.x]
                } else {
                    old(self).glyph(x, y)
                },
            forall|x: int, y: int|
                final(self).in_grid(x, y) ==> #[trigger] final(self).fg_at(x, y) == old(self).fg_at(
                    x,
                    y,
                ),
            forall|x: int, y: int|
                final(self).in_grid(x, y) ==> #[trigger] final(self).bg_at(x, y) == old(self).bg_at(
                    x,
                    y,
                ),
    {
        let w = self.window.x as usize;
        let maxlen = w - p.x as usize;
        let len = if src.len() <= maxlen {
            src.len()
        } else {
            maxlen
        };
        proof {
            lemma_cell_index(self.width(), self.height(), 0, p.y as int);
            assert(p.y * w + w <= self.window.x * self.window.y) by (nonlinear_arith)
                requires
                    p.y + 1 <= self.window.y,
                    w == self.window.x,
                    0 < w,
            ;
        }
        let start = p.y as usize * w + p.x as usize;
        let mut j: usize = 0;
        while j < len
            invariant
                self.wf(),
                self.window == old(self).window,
                self.cursor == old(self).cursor,
                self.fg == old(self).fg,
                self.bg == old(self).bg,
                w == self.window.x,
                len <= src@.len(),
                p.x + len <= w,
                start == p.y * w + p.x,
                start + len <= self.text@.len(),
                j <= len,
                forall|i: int|
                    0 <= i < self.text@.len() ==> #[trigger] self.text@[i] == if start <= i < start + j {
                        src@[i - start]
                    } else {
                        old(self).text@[i]
                    },
            decreases len - j,
        {
            self.text.set(start + j, src[j]);
            j = j + 1;
        }
        proof {
            assert forall|x: int, y: int| self.in_grid(x, y) implies #[trigger] self.glyph(x, y)
                == if y == p.y && p.x <= x < p.x + src@.len() {
                src@[x - p.x]
            } else {
                old(self).glyph(x, y)
            } by {
                lemma_cell_index(self.width(), self.height(), x, y);
                let i = cell_index(self.width(), x, y);
                if start <= i < start + len {
                    let x2 = p.x + (i - start);
                    assert(cell_index(self.width(), x2, p.y as int) == i);
                    lemma_cell_index_injective(self.width(), self.height(), x, y, x2, p.y as int);
                }
                if y == p.y && p.x <= x < p.x + src@.len() {
                    assert(i == start + (x - p.x));
                }
            }
        }
    }

    /// Sets the colors of every cell of `area`.
    pub fn put_color(&mut self, area: Rec, colors: Colorcell)
        requires
            old(self).wf(),
            0 <= area.min.x <= area.max.x <= old(self).width(),
            0 <= area.min.y <= area.max.y <= old(self).height(),
            0 <= spec_colorcode(colors.fg) < 256,
            0 <= spec_colorcode(colors.bg) < 256,
        ensures
            final(self).wf(),
            final(self).width() == old(self).width(),
            final(self).height() == old(self).height(),
            final(self).cursor_pos() == old(self).cursor_pos(),
            forall|x: int, y: int|
                final(self).in_grid(x, y) ==> #[trigger] final(self).glyph(x, y) == old(self).glyph(
                    x,
                    y,
                ),
            forall|x: int, y: int|
                final(self).in_grid(x, y) ==> #[trigger] final(self).fg_at(x, y) == if area.covers(
                    Pos { x: x as i32, y: y as i32 },
                ) {
                    spec_colorcode(colors.fg) as i32
                } else {
                    old(self).fg_at(x, y)
                },
            forall|x: int, y: int|
                final(self).in_grid(x, y) ==> #[trigger] final(self).bg_at(x, y) == if area.covers(
                    Pos { x: x as i32, y: y as i32 },
                ) {
                    spec_colorcode(colors.bg) as i32
                } else {
                    old(self).bg_at(x, y)
                },
    {
        let cf = colorcode(colors.fg);
        let cb = colorcode(colors.bg);
        let w = self.window.x;
        let mut y = area.min.y;
        while y < area.max.y
            invariant
                self.wf(),
                self.window == old(self).window,
                self.cursor == old(self).cursor,
                self.text == old(self).text,
                w == self.window.x,
                0 <= area.min.x <= area.max.x <= self.window.x,
                0 <= area.min.y <= y <= area.max.y <= self.window.y,
                cf == spec_colorcode(colors.fg),
                cb == spec_colorcode(colors.bg),
                0 <= cf < 256,
                0 <= cb < 256,
                forall|x: int, yy: int|
                    self.in_grid(x, yy) ==> #[trigger] self.fg_at(x, yy) == if area.min.x <= x
                        < area.max.x && area.min.y <= yy < y {
                        cf
                    } else {
                        old(self).fg_at(x, yy)
                    },
                forall|x: int, yy: int|
                    self.in_grid(x, yy) ==> #[trigger] self.bg_at(x, yy) == if area.min.x <= x
                        < area.max.x && area.min.y <= yy < y {
                        cb
                    } else {
                        old(self).bg_at(x, yy)
                    },
            decreases area.max.y - y,
        {
            let mut x = area.min.x;
            while x < area.max.x
                invariant
                    self.wf(),
                    self.window == old(self).window,
                    self.cursor == old(self).cursor,
                    self.text == old(self).text,
                    w == self.window.x,
                    0 <= area.min.x <= x <= area.max.x <= self.window.x,
                    0 <= area.min.y <= y < area.max.y <= self.window.y,
                    cf == spec_colorcode(colors.fg),
                    cb == spec_colorcode(colors.bg),
                    0 <= cf < 256,
                    0 <= cb < 256,
                    forall|xx: int, yy: int|
                        self.in_grid(xx, yy) ==> #[trigger] self.fg_at(xx, yy) == if (area.min.x <= xx
                            < area.max.x && area.min.y <= yy < y) || (yy == y && area.min.x <= xx
                            < x) {
                            cf
                        } else {
                            old(self).fg_at(xx, yy)
                        },
                    forall|xx: int, yy: int|
                        self.in_grid(xx, yy) ==> #[trigger] self.bg_at(xx, yy) == if (area.min.x <= xx
                            < area.max.x && area.min.y <= yy < y) || (yy == y && area.min.x <= xx
                            < x) {
                            cb
                        } else {
                            old(self).bg_at(xx, yy)
                        },
                decreases area.max.x - x,
            {
                proof {
                    lemma_cell_index(self.width(), self.height(), x as int, y as int);
                }
                let i = y as usize * w as usize + x as usize;
                assert(i == cell_index(self.width(), x as int, y as int));
                let ghost prev = *self;
                self.fg.set(i, cf);
                self.bg.set(i, cb);
                proof {
                    assert forall|xx: int, yy: int| self.in_grid(xx, yy) implies #[trigger] self.fg_at(
                        xx,
                        yy,
                    ) == if (area.min.x <= xx < area.max.x && area.min.y <= yy < y) || (yy == y
                        && area.min.x <= xx < x + 1) {
                        cf
                    } else {
                        old(self).fg_at(xx, yy)
                    } by {
                        lemma_cell_index(self.width(), self.height(), xx, yy);
                        assert(prev.in_grid(xx, yy));
                        let pf = prev.fg_at(xx, yy);
                        if cell_index(self.width(), xx, yy) == i {
                            lemma_cell_index_injective(self.width(), self.height(), xx, yy, x as int, y as int);
                        }
                    }
                    assert forall|xx: int, yy: int| self.in_grid(xx, yy) implies #[trigger] self.bg_at(
                        xx,
                        yy,
                    ) == if (area.min.x <= xx < area.max.x && area.min.y <= yy < y) || (yy == y
                        && area.min.x <= xx < x + 1) {
                        cb
                    } else {
                        old(self).bg_at(xx, yy)
                    } by {
                        lemma_cell_index(self.width(), self.height(), xx, yy);
                        assert(prev.in_grid(xx, yy));
                        let pb = prev.bg_at(xx, yy);
                        if cell_index(self.width(), xx, yy) == i {
                            lemma_cell_index_injective(self.width(), self.height(), xx, yy, x as int, y as int);
                        }
                    }
                }
                x = x + 1;
            }
            y = y + 1;
        }
    }

    /// The bytes that show this frame on a terminal: hide the cursor, go
    /// home, each row as runs of one color (rows separated by CR LF), then
    /// place and show the cursor.
    pub closed spec fn frame_bytes(&self) -> Seq<u8> {
        frame_prologue() + rows_bytes(
            self.text@,
            self.fg@,
            self.bg@,
            self.width(),
            self.height(),
        ) + cursor_cmd(self.cursor) + frame_epilogue()
    }

    /// The runs of row `y`, left to right.
    pub closed spec fn row_runs(&self, y: int) -> Seq<Run> {
        runs(self.text@, self.fg@, self.bg@, y * self.width(), (y + 1) * self.width())
    }

    /// The bytes of row `y`, left to right.
    pub closed spec fn row_text(&self, y: int) -> Seq<u8> {
        self.text@.subrange(y * self.width(), (y + 1) * self.width())
    }

    /// How many cells of row `y` differ in color from their left neighbour.
    pub closed spec fn row_color_changes(&self, y: int) -> nat {
        color_changes(self.fg@, self.bg@, y * self.width(), (y + 1) * self.width())
    }

    proof fn lemma_rows_shown(&self, n: int)
        requires
            0 <= n,
        ensures
            rows_bytes(self.text@, self.fg@, self.bg@, self.width(), n) == rows_shown(*self, n),
        decreases n,
    {
        if n > 0 {
            self.lemma_rows_shown(n - 1);
        }
    }

    /// The frame's bytes are the prologue, each row's runs (rows separated
    /// by CR LF), the cursor placement and the epilogue.
    pub proof fn lemma_frame_bytes(&self)
        requires
            self.wf(),
        ensures
            self.frame_bytes() == frame_prologue() + rows_shown(*self, self.height())
                + cursor_cmd(self.cursor_pos()) + frame_epilogue(),
    {
        self.lemma_rows_shown(self.height());
    }

    /// Each row renders as its runs: they reassemble the row's bytes and
    /// there is one color command more than there are color changes.
    pub proof fn lemma_row_runs(&self, y: int)
        requires
            self.wf(),
            0 <= y < self.height(),
        ensures
            run_texts(self.row_runs(y)) == self.row_text(y),
            self.row_runs(y).len() == 1 + self.row_color_changes(y),
    {
        lemma_cell_index(self.width(), self.height(), 0, y);
        assert((y + 1) * self.width() <= self.width() * self.height()) by (nonlinear_arith)
            requires
                y + 1 <= self.height(),
                0 < self.width(),
        ;
        assert((y + 1) * self.width() == y * self.width() + self.width()) by (nonlinear_arith);
        lemma_runs_cover_row(
            self.text@,
            self.fg@,
            self.bg@,
            y * self.width(),
            (y + 1) * self.width(),
        );
    }

    /// The end of the run of cells that starts at `a`, before `stop`.
    fn find_color_end(&self, a: usize, stop: usize) -> (b: usize)
        requires
            self.wf(),
            a < stop <= self.fg@.len(),
        ensures
            a < b <= stop,
            forall|i: int| a <= i < b ==> self.fg@[i] == self.fg@[a as int] && self.bg@[i] == self.bg@[a as int],
            b == stop || self.fg@[b as int] != self.fg@[a as int] || self.bg@[b as int] != self.bg@[a as int],
    {
        let mut b = a;
        while b < stop && self.fg[a] == self.fg[b] && self.bg[a] == self.bg[b]
            invariant
                self.wf(),
                a <= b <= stop <= self.fg@.len(),
                forall|i: int| a <= i < b ==> self.fg@[i] == self.fg@[a as int] && self.bg@[i] == self.bg@[a as int],
            decreases stop - b,
        {
            b = b + 1;
        }
        b
    }

    /// Composes the bytes that show the frame (see `frame_bytes`), reusing
    /// the output buffer of the previous frame.
    pub fn render(&mut self)
        requires
            old(self).wf(),
        ensures
            final(self).wf(),
            final(self).width() == old(self).width(),
            final(self).height() == old(self).height(),
            final(self).cursor_pos() == old(self).cursor_pos(),
            final(self).frame_bytes() == old(self).frame_bytes(),
            final(self).output() == old(self).frame_bytes(),
            forall|x: int, y: int|
                final(self).in_grid(x, y) ==> #[trigger] final(self).glyph(x, y) == old(self).glyph(
                    x,
                    y,
                ) && final(self).fg_at(x, y) == old(self).fg_at(x, y) && final(self).bg_at(x, y)
                    == old(self).bg_at(x, y),
    {
        self.buffer.clear();
        append(&mut self.buffer, &[27u8, 91, 63, 50, 53, 108, 27, 91, 72]);
        let w = self.window.x as usize;
        let h = self.window.y as usize;
        let ghost t = self.text@;
        let ghost f = self.fg@;
        let ghost g = self.bg@;
        let mut l: usize = 0;
        let mut i: usize = 0;
        while i < h
            invariant
                self.wf(),
                self.window == old(self).window,
                self.cursor == old(self).cursor,
                self.text == old(self).text,
                self.fg == old(self).fg,
                self.bg == old(self).bg,
                t == self.text@,
                f == self.fg@,
                g == self.bg@,
                w == self.window.x,
                h == self.window.y,
                i <= h,
                l == i * w,
                self.buffer@ == frame_prologue() + rows_bytes(t, f, g, w as int, i as int),
            decreases h - i,
        {
            proof {
                assert(l + w <= w * h) by (nonlinear_arith)
                    requires
                        l == i * w,
                        i + 1 <= h,
                ;
            }
            let r = l + w;
            if i > 0 {
                append(&mut self.buffer, &[13u8, 10]);
            }
            let ghost before = self.buffer@;
            let mut j = l;
            loop
                invariant_except_break
                    l <= j < r,
                    self.buffer@ + runs_bytes(runs(t, f, g, j as int, r as int)) == before
                        + runs_bytes(runs(t, f, g, l as int, r as int)),
                invariant
                    self.wf(),
                    self.window == old(self).window,
                    self.cursor == old(self).cursor,
                    self.text == old(self).text,
                    self.fg == old(self).fg,
                    self.bg == old(self).bg,
                    t == self.text@,
                    f == self.fg@,
                    g == self.bg@,
                    r <= t.len(),
                    r == l + w,
                ensures
                    self.wf(),
                    self.window == old(self).window,
                    self.cursor == old(self).cursor,
                    self.text == old(self).text,
                    self.fg == old(self).fg,
                    self.bg == old(self).bg,
                    self.buffer@ == before + runs_bytes(runs(t, f, g, l as int, r as int)),
                decreases r - j,
            {
                let k = self.find_color_end(j, r);
                let ghost mid = self.buffer@;
                append(&mut self.buffer, &[27u8, 91, 51, 56, 59, 53, 59]);
                append_decimal(&mut self.buffer, self.fg[j]);
                append(&mut self.buffer, &[59u8, 52, 56, 59, 53, 59]);
                append_decimal(&mut self.buffer, self.bg[j]);
                append(&mut self.buffer, &[109u8]);
                let all = self.text.as_slice();
                append(&mut self.buffer, &all[j..k]);
                proof {
                    lemma_run_split(t, f, g, j as int, k as int, r as int);
                    let rs = runs(t, f, g, j as int, r as int);
                    assert(rs.drop_first() =~= runs(t, f, g, k as int, r as int));
                    assert(self.buffer@ =~= mid + color_cmd(f[j as int], g[j as int]) + t.subrange(
                        j as int,
                        k as int,
                    ));
                    if k == r {
                        assert(runs(t, f, g, k as int, r as int) =~= Seq::<Run>::empty());
                        assert(runs_bytes(runs(t, f, g, k as int, r as int)) =~= Seq::<u8>::empty());
                    }
                }
                if k == r {
                    assert(self.buffer@ + Seq::<u8>::empty() =~= self.buffer@);
                    break;
                }
                j = k;
            }
            proof {
                assert(l as int == i as int * w as int);
                assert(r as int == (i as int + 1) * w as int) by (nonlinear_arith)
                    requires
                        l == i * w,
                        r == l + w,
                ;
            }
            l = r;
            i = i + 1;
        }
        append(&mut self.buffer, &[27u8, 91]);
        append_decimal(&mut self.buffer, self.cursor.y + 1);
        append(&mut self.buffer, &[59u8]);
        append_decimal(&mut self.buffer, self.cursor.x + 1);
        append(&mut self.buffer, &[72u8]);
        append(&mut self.buffer, &[27u8, 91, 63, 50, 53, 104]);
        proof {
            assert(self.buffer@ =~= old(self).frame_bytes());
        }
    }

    /// The bytes of the last frame rendered.
    pub fn output_bytes(&self) -> (r: &[u8])
        ensures
            r@ == self.output(),
    {
        self.buffer.as_slice()
    }

    /// The size of the frame.
    pub fn window(&self) -> (r: Pos)
        ensures
            r.x == self.width(),
            r.y == self.height(),
    {
        self.window
    }

    /// Shows the last entries of `console` in the bottom right corner, above
    /// the footer row, when they fit.
    pub fn dump_console(&mut self, console: &Debugconsole)
        requires
            old(self).wf(),
            console.wf(),
        ensures
            final(self).wf(),
            final(self).width() == old(self).width(),
            final(self).height() == old(self).height(),
            final(self).cursor_pos() == old(self).cursor_pos(),
            forall|x: int, y: int|
                final(self).in_grid(x, y) && y == final(self).height() - 1 ==> #[trigger] final(self).glyph(x, y) == old(self).glyph(x, y) && final(self).fg_at(x, y) == old(self).fg_at(x, y)
                    && final(self).bg_at(x, y) == old(self).bg_at(x, y),
            forall|x: int, y: int|
                final(self).in_grid(x, y) && !console_area(old(self).width(), old(self).height(), *console).covers(
                    Pos { x: x as i32, y: y as i32 },
                ) ==> #[trigger] final(self).glyph(x, y) == old(self).glyph(x, y),
            ({
                let rows = if console.next_entry < console.height {
                    console.next_entry as int
                } else {
                    console.height as int
                };
                console.width <= old(self).width() && rows < old(self).height() ==> forall|x: int, y: int|
                    final(self).in_grid(x, y) && old(self).width() - console.width <= x
                        && old(self).height() - rows - 1 <= y < old(self).height() - 1 ==> #[trigger] final(self).bg_at(x, y) == spec_colorcode(Color::Gray(12))
            }),
    {
        let c = conf();
        if !c.debug_console {
            return;
        }
        let rows = if console.next_entry < console.height {
            console.next_entry
        } else {
            console.height
        };
        if console.width > self.window.x || rows >= self.window.y {
            return;
        }
        let area = Rec {
            min: pos(self.window.x - console.width, self.window.y - rows - 1),
            max: pos(self.window.x, self.window.y - 1),
        };
        let ghost carea = console_area(self.width(), self.height(), *console);
        assert(area == carea);
        let start = console.next_entry - rows;
        let mut i = start;
        while i < console.next_entry
            invariant
                area == carea,
                area.min.y == self.window.y - rows - 1,
                area.max.x == self.window.x,
                forall|x: int, y: int|
                    self.in_grid(x, y) && !carea.covers(Pos { x: x as i32, y: y as i32 })
                        ==> #[trigger] self.glyph(x, y) == old(self).glyph(x, y),
                self.wf(),
                self.window == old(self).window,
                self.cursor == old(self).cursor,
                console.wf(),
                start <= i <= console.next_entry,
                0 <= start,
                console.next_entry - start == rows,
                rows + 1 <= self.window.y,
                console.width <= self.window.x,
                area.min.x == self.window.x - console.width,
                area.max.y == self.window.y - 1,
                forall|x: int, y: int|
                    self.in_grid(x, y) && y == self.height() - 1 ==> #[trigger] self.glyph(x, y)
                        == old(self).glyph(x, y) && self.fg_at(x, y) == old(self).fg_at(x, y)
                        && self.bg_at(x, y) == old(self).bg_at(x, y),
            decreases console.next_entry - i,
        {
            let dst = pos(area.min.x, area.max.y - (console.next_entry - i));
            let ghost prev = *self;
            self.put_line(dst, console.get_line(i));
            proof {
                assert forall|x: int, y: int| self.in_grid(x, y) && y == self.height() - 1 implies #[trigger] self.glyph(
                    x,
                    y,
                ) == old(self).glyph(x, y) && self.fg_at(x, y) == old(self).fg_at(x, y)
                    && self.bg_at(x, y) == old(self).bg_at(x, y) by {
                    assert(prev.glyph(x, y) == old(self).glyph(x, y));
                }
                assert forall|x: int, y: int|
                    self.in_grid(x, y) && !carea.covers(Pos { x: x as i32, y: y as i32 }) implies #[trigger] self.glyph(
                    x,
                    y,
                ) == old(self).glyph(x, y) by {
                    assert(prev.glyph(x, y) == old(self).glyph(x, y));
                }
            }
            i = i + 1;
        }
        let ghost prev = *self;
        self.put_color(area, c.color_console);
        proof {
            assert forall|x: int, y: int| self.in_grid(x, y) && y == self.height() - 1 implies #[trigger] self.glyph(
                x,
                y,
            ) == old(self).glyph(x, y) && self.fg_at(x, y) == old(self).fg_at(x, y) && self.bg_at(x, y)
                == old(self).bg_at(x, y) by {
                assert(prev.glyph(x, y) == old(self).glyph(x, y));
                assert(prev.fg_at(x, y) == old(self).fg_at(x, y));
            }
            assert forall|x: int, y: int|
                self.in_grid(x, y) && !carea.covers(Pos { x: x as i32, y: y as i32 }) implies #[trigger] self.glyph(
                x,
                y,
            ) == old(self).glyph(x, y) by {
                assert(prev.glyph(x, y) == old(self).glyph(x, y));
            }
        }
    }

    /// Places the terminal cursor at `new_cursor`, clamped into the frame.
    pub fn set_cursor(&mut self, new_cursor: Pos)
        requires
            old(self).wf(),
        ensures
            final(self).wf(),
            final(self).width() == old(self).width(),
            final(self).height() == old(self).height(),
            final(self).cursor_pos() == (Pos {
                x: clamp_int(new_cursor.x as int, 0, old(self).width() - 1) as i32,
                y: clamp_int(new_cursor.y as int, 0, old(self).height() - 1) as i32,
            }),
            forall|x: int, y: int|
                final(self).in_grid(x, y) ==> #[trigger] final(self).glyph(x, y) == old(self).glyph(
                    x,
                    y,
                ),
            forall|x: int, y: int|
                final(self).in_grid(x, y) ==> #[trigger] final(self).fg_at(x, y) == old(self).fg_at(
                    x,
                    y,
                ),
            forall|x: int, y: int|
                final(self).in_grid(x, y) ==> #[trigger] final(self).bg_at(x, y) == old(self).bg_at(
                    x,
                    y,
                ),
    {
        let mut x = new_cursor.x;
        let mut y = new_cursor.y;
        if x < 0 {
            x = 0;
        }
        if x > self.window.x - 1 {
            x = self.window.x - 1;
        }
        if y < 0 {
            y = 0;
        }
        if y > self.window.y - 1 {
            y = self.window.y - 1;
        }
        self.cursor = pos(x, y);
    }
}

/// A maximal stretch of cells of one row that share their colors.
pub struct Run {
    pub fg: i32,
    pub bg: i32,
    pub text: Seq<u8>,
}

/// The runs of cells `j..stop`, left to right.
pub open spec fn runs(text: Seq<u8>, fg: Seq<i32>, bg: Seq<i32>, j: int, stop: int) -> Seq<Run>
    decreases stop - j,
{
    if j >= stop {
        Seq::empty()
    } else {
        let rest = runs(text, fg, bg, j + 1, stop);
        if j + 1 < stop && fg[j] == fg[j + 1] && bg[j] == bg[j + 1] {
            rest.update(0, Run { fg: fg[j], bg: bg[j], text: seq![text[j]] + rest[0].text })
        } else {
            seq![Run { fg: fg[j], bg: bg[j], text: seq![text[j]] }] + rest
        }
    }
}

/// How many cells of `j + 1..stop` differ in color from the one before.
pub open spec fn color_changes(fg: Seq<i32>, bg: Seq<i32>, j: int, stop: int) -> nat
    decreases stop - j,
{
    if j + 1 >= stop {
        0
    } else {
        (if fg[j] == fg[j + 1] && bg[j] == bg[j + 1] {
            0nat
        } else {
            1nat
        }) + color_changes(fg, bg, j + 1, stop)
    }
}

/// The bytes of the runs, one after the other.
pub open spec fn run_texts(rs: Seq<Run>) -> Seq<u8>
    decreases rs.len(),
{
    if rs.len() == 0 {
        Seq::empty()
    } else {
        rs[0].text + run_texts(rs.drop_first())
    }
}

/// ESC [ 38 ; 5 ; <fg> ; 48 ; 5 ; <bg> m
pub open spec fn color_cmd(fg: i32, bg: i32) -> Seq<u8> {
    seq![27u8, 91, 51, 56, 59, 53, 59] + decimal(fg as nat) + seq![59u8, 52, 56, 59, 53, 59]
        + decimal(bg as nat) + seq![109u8]
}

/// Each run as its color command followed by its bytes.
pub open spec fn runs_bytes(rs: Seq<Run>) -> Seq<u8>
    decreases rs.len(),
{
    if rs.len() == 0 {
        Seq::empty()
    } else {
        color_cmd(rs[0].fg, rs[0].bg) + rs[0].text + runs_bytes(rs.drop_first())
    }
}

/// Rows `0..n` of a grid `w` wide, as runs, separated by CR LF.
pub open spec fn rows_bytes(text: Seq<u8>, fg: Seq<i32>, bg: Seq<i32>, w: int, n: int) -> Seq<u8>
    decreases n,
{
    if n <= 0 {
        Seq::empty()
    } else {
        rows_bytes(text, fg, bg, w, n - 1) + (if n > 1 {
            seq![13u8, 10]
        } else {
            Seq::empty()
        }) + runs_bytes(runs(text, fg, bg, (n - 1) * w, n * w))
    }
}

/// Rows `0..n` of `fb`, each as its runs, separated by CR LF.
pub open spec fn rows_shown(fb: Framebuffer, n: int) -> Seq<u8>
    decreases n,
{
    if n <= 0 {
        Seq::empty()
    } else {
        rows_shown(fb, n - 1) + (if n > 1 {
            seq![13u8, 10]
        } else {
            Seq::empty()
        }) + runs_bytes(fb.row_runs(n - 1))
    }
}

/// ESC [ <row + 1> ; <column + 1> H
pub open spec fn cursor_cmd(p: Pos) -> Seq<u8> {
    seq![27u8, 91] + decimal((p.y + 1) as nat) + seq![59u8] + decimal((p.x + 1) as nat) + seq![72u8]
}

/// ESC [ ? 25 l, then ESC [ H
pub open spec fn frame_prologue() -> Seq<u8> {
    seq![27u8, 91, 63, 50, 53, 108, 27, 91, 72]
}

/// ESC [ ? 25 h
pub open spec fn frame_epilogue() -> Seq<u8> {
    seq![27u8, 91, 63, 50, 53, 104]
}

proof fn lemma_run_split(text: Seq<u8>, fg: Seq<i32>, bg: Seq<i32>, j: int, k: int, stop: int)
    requires
        0 <= j < k <= stop <= text.len(),
        stop <= fg.len(),
        stop <= bg.len(),
        forall|i: int| j <= i < k ==> fg[i] == fg[j] && bg[i] == bg[j],
        k == stop || fg[k] != fg[j] || bg[k] != bg[j],
    ensures
        runs(text, fg, bg, j, stop) == seq![Run { fg: fg[j], bg: bg[j], text: text.subrange(j, k) }]
            + runs(text, fg, bg, k, stop),
    decreases k - j,
{
    if j + 1 < k {
        lemma_run_split(text, fg, bg, j + 1, k, stop);
        assert(seq![text[j]] + text.subrange(j + 1, k) =~= text.subrange(j, k));
        assert(runs(text, fg, bg, j, stop) =~= seq![
            Run { fg: fg[j], bg: bg[j], text: text.subrange(j, k) },
        ] + runs(text, fg, bg, k, stop));
    } else {
        assert(text.subrange(j, k) =~= seq![text[j]]);
    }
}

/// The run-length rendering of a row: its runs reassemble the row's bytes,
/// and there is one run (one color command) more than there are color
/// changes between neighbouring cells.
pub proof fn lemma_runs_cover_row(text: Seq<u8>, fg: Seq<i32>, bg: Seq<i32>, lo: int, stop: int)
    requires
        0 <= lo < stop <= text.len(),
        stop <= fg.len(),
        stop <= bg.len(),
    ensures
        run_texts(runs(text, fg, bg, lo, stop)) == text.subrange(lo, stop),
        runs(text, fg, bg, lo, stop).len() == 1 + color_changes(fg, bg, lo, stop),
    decreases stop - lo,
{
    let rest = runs(text, fg, bg, lo + 1, stop);
    if lo + 1 < stop {
        lemma_runs_cover_row(text, fg, bg, lo + 1, stop);
        assert(rest.len() >= 1);
        if fg[lo] == fg[lo + 1] && bg[lo] == bg[lo + 1] {
            let r = runs(text, fg, bg, lo, stop);
            assert(r.drop_first() =~= rest.drop_first());
            assert(run_texts(rest) == rest[0].text + run_texts(rest.drop_first()));
            assert(run_texts(r) == r[0].text + run_texts(r.drop_first()));
            assert(text.subrange(lo, stop) =~= seq![text[lo]] + text.subrange(lo + 1, stop));
        } else {
            let r = runs(text, fg, bg, lo, stop);
            assert(r.drop_first() =~= rest);
            assert(text.subrange(lo, stop) =~= seq![text[lo]] + text.subrange(lo + 1, stop));
        }
    } else {
        let r = runs(text, fg, bg, lo, stop);
        assert(rest =~= Seq::<Run>::empty());
        assert(r.drop_first() =~= Seq::<Run>::empty());
        assert(run_texts(r.drop_first()) =~= Seq::<u8>::empty());
        assert(text.subrange(lo, stop) =~= seq![text[lo]]);
    }
}

/// Appends the bytes of `src` to `dst`.
fn append(dst: &mut Vec<u8>, src: &[u8])
    ensures
        final(dst)@ == old(dst)@ + src@,
{
    let n = src.len();
    let mut i: usize = 0;
    while i < n
        invariant
            n == src@.len(),
            i <= n,
            dst@ == old(dst)@ + src@.subrange(0, i as int),
        decreases n - i,
    {
        dst.push(src[i]);
        i = i + 1;
        assert(dst@ =~= old(dst)@ + src@.subrange(0, i as int));
    }
    assert(src@.subrange(0, n as int) =~= src@);
}

/// Appends the decimal digits of `x` to `dst`.
fn append_decimal(dst: &mut Vec<u8>, x: i32)
    requires
        0 <= x,
    ensures
        final(dst)@ == old(dst)@ + decimal(x as nat),
{
    let mut digits: [u8; 10] = [0u8; 10];
    proof {
        lemma_decimal_len_i32(x as nat);
    }
    let n = itoa10_left(&mut digits, x);
    let d: &[u8] = &digits;
    let part = &d[0..n];
    append(dst, part);
}

proof fn lemma_decimal_len_i32(n: nat)
    requires
        n <= i32::MAX,
    ensures
        decimal(n).len() <= 10,
{
    assert(pow10(0) == 1);
    assert(pow10(1) == 10);
    assert(pow10(2) == 100);
    assert(pow10(3) == 1000);
    assert(pow10(4) == 10000);
    assert(pow10(5) == 100000);
    assert(pow10(6) == 1000000);
    assert(pow10(7) == 10000000);
    assert(pow10(8) == 100000000);
    assert(pow10(9) == 1000000000);
    assert(pow10(10) == 10000000000);
    lemma_decimal_len_pow(n, 9);
}

spec fn pow10(k: nat) -> nat
    decreases k,
{
    if k == 0 {
        1
    } else {
        10 * pow10((k - 1) as nat)
    }
}

proof fn lemma_decimal_len_pow(n: nat, k: nat)
    requires
        n < pow10(k + 1),
    ensures
        decimal(n).len() <= k + 1,
    decreases k,
{
    if n >= 10 {
        if k == 0 {
            assert(pow10(1) == 10 * pow10(0));
        } else {
            let p = pow10(k);
            assert(pow10(k + 1) == 10 * p);
            assert(n / 10 < p) by (nonlinear_arith)
                requires
                    n < 10 * p,
            ;
            lemma_decimal_len_pow(n / 10, (k - 1) as nat);
        }
    }
}

/// `n` copies of `v`.
fn filled<T: Copy>(v: T, n: usize) -> (r: Vec<T>)
    ensures
        r@ == Seq::new(n as nat, |i: int| v),
{
    let mut r: Vec<T> = Vec::new();
    let mut i: usize = 0;
    while i < n
        invariant
            i <= n,
            r@ == Seq::new(i as nat, |j: int| v),
        decreases n - i,
    {
        r.push(v);
        i = i + 1;
        assert(r@ =~= Seq::new(i as nat, |j: int| v));
    }
    r
}

pub open spec fn pos_origin() -> Pos {
    Pos { x: 0, y: 0 }
}

/// The rows of `c` that a frame `w` by `h` shows: its last entries.
pub open spec fn console_rows(c: Debugconsole) -> int {
    if c.next_entry < c.height {
        c.next_entry as int
    } else {
        c.height as int
    }
}

/// Where a frame `w` by `h` shows console `c`: bottom right, above the
/// footer row; empty when it does not fit.
pub open spec fn console_area(w: int, h: int, c: Debugconsole) -> Rec {
    if c.width <= w && console_rows(c) < h {
        Rec {
            min: Pos { x: (w - c.width) as i32, y: (h - console_rows(c) - 1) as i32 },
            max: Pos { x: w as i32, y: (h - 1) as i32 },
        }
    } else {
        Rec { min: Pos { x: 0, y: 0 }, max: Pos { x: 0, y: 0 } }
    }
}

/// Row `at.y` of `fb` shows the bytes `l` from column `at.x` on, as far as
/// the frame reaches and `area` does not cover it.
pub open spec fn shows_line_except(fb: Framebuffer, at: Pos, l: Seq<u8>, area: Rec) -> bool {
    forall|k: int|
        0 <= k < l.len() && at.x + k < fb.width() && !area.covers(
            Pos { x: (at.x + k) as i32, y: at.y },
        ) ==> fb.glyph(at.x + k, at.y as int) == #[trigger] l[k]
}

/// Row `at.y` of `fb` shows the bytes `l` from column `at.x` on, as far as
/// the frame reaches.
pub open spec fn shows_line(fb: Framebuffer, at: Pos, l: Seq<u8>) -> bool {
    forall|k: int|
        0 <= k < l.len() && at.x + k < fb.width() ==> fb.glyph(at.x + k, at.y as int) == #[trigger] l[k]
}

/// What a screen shows of line `offset.y + i`: its bytes from column
/// `offset.x` on.
pub open spec fn visible_line(lines: Seq<Seq<u8>>, offset: Pos, i: int) -> Seq<u8> {
    let l = lines[offset.y + i];
    if offset.x <= l.len() {
        l.subrange(offset.x as int, l.len() as int)
    } else {
        Seq::empty()
    }
}

/// How many lines of the text area show buffer lines.
pub open spec fn visible_rows(lines: Seq<Seq<u8>>, offset: Pos, height: int) -> int {
    let avail = lines.len() - offset.y;
    if height < avail {
        height
    } else {
        avail
    }
}

/// The areas of a screen: a header row, the line number gutter and the text.
/// All positions are in frame coordinates.
#[derive(Debug, Clone, Copy)]
pub struct Screen {
    pub window: Rec,
    pub linenoarea: Rec,
    pub textarea: Rec,
    pub header: Rec,
}

/// What a screen shows.
pub struct Drawinfo<'a> {
    pub header: &'a [u8],
    pub buffer: &'a Buffer,
    pub buffer_offset: Pos,
    pub cursor: Pos,
    pub draw: Draw,
    pub relative_lineno: bool,
    pub is_active: bool,
}

/// Width of the line number gutter.
pub const LINENO_LEN: i32 = 5;

impl Screen {
    /// The areas laid out as the screen makes them inside `window`.
    pub open spec fn laid_out(&self) -> bool {
        let w = self.window;
        &&& w.min.x <= LINENO_LEN < w.max.x
        &&& w.min.y <= 1 < w.max.y
        &&& self.header == (Rec { min: w.min, max: Pos { x: w.max.x, y: 1 } })
        &&& self.linenoarea == (Rec { min: Pos { x: w.min.x, y: 1 }, max: Pos { x: LINENO_LEN, y: w.max.y } })
        &&& self.textarea == (Rec { min: Pos { x: LINENO_LEN, y: 1 }, max: w.max })
    }

    /// Lays out a header row (above row 1), a gutter (left of column 5)
    /// and the text area in `window`.
    pub fn mk_screen(window: Rec) -> (s: Screen)
        requires
            window.min.x <= LINENO_LEN < window.max.x,
            window.min.y <= 1 < window.max.y,
        ensures
            s.window == window,
            s.laid_out(),
    {
        let (header, filearea) = window.vsplit(1);
        let (linenoarea, textarea) = filearea.hsplit(LINENO_LEN);
        Screen { window, linenoarea, textarea, header }
    }

    /// `fb` shows the header `hdr` and the first `rows` visible lines.
    pub open spec fn screen_shows(
        &self,
        fb: Framebuffer,
        hdr: Seq<u8>,
        lines: Seq<Seq<u8>>,
        offset: Pos,
        rows: int,
    ) -> bool {
        &&& shows_line(fb, self.header.min, hdr)
        &&& forall|k: int|
            0 <= k < rows ==> #[trigger] shows_line(
                fb,
                Pos { x: self.textarea.min.x, y: (self.textarea.min.y + k) as i32 },
                visible_line(lines, offset, k),
            )
    }

    /// Where the cursor of `d` falls in the frame.
    pub open spec fn cursor_cell(&self, d: &Drawinfo) -> Pos {
        Pos {
            x: (d.cursor.x + self.textarea.min.x - d.buffer_offset.x) as i32,
            y: (d.cursor.y + self.textarea.min.y - d.buffer_offset.y) as i32,
        }
    }

    /// Cell `(x, y)` is in the cursor's row or column band of the text area
    /// (there are bands only when the cursor is in the text area).
    pub open spec fn in_band(&self, csp: Pos, x: int, y: int) -> bool {
        &&& self.textarea.covers(csp)
        &&& self.textarea.min.x <= x < self.textarea.max.x
        &&& self.textarea.min.y <= y < self.textarea.max.y
        &&& (y == csp.y || x == csp.x)
    }

    /// The number shown on the first row of the gutter: absolute, or
    /// relative to the cursor line.
    pub open spec fn lineno_base(&self, d: &Drawinfo) -> int {
        if d.relative_lineno {
            d.buffer_offset.y - d.cursor.y
        } else {
            d.buffer_offset.y + 1
        }
    }

    /// The first `rows` rows of the gutter show the numbers from `base` on,
    /// right-aligned in four cells.
    pub open spec fn numbers_shown(&self, f: Framebuffer, base: int, rows: int) -> bool {
        forall|k: int|
            0 <= k < rows ==> #[trigger] shows_line(
                f,
                Pos { x: self.linenoarea.min.x, y: (self.linenoarea.min.y + k) as i32 },
                right_aligned(4, base + k, SPACE_BYTE),
            )
    }

    /// From `o` to `f` only header cells changed, and they took the active
    /// header colors.
    pub open spec fn header_only(&self, o: Framebuffer, f: Framebuffer) -> bool {
        &&& forall|x: int, y: int|
            f.in_grid(x, y) && !self.header.covers(Pos { x: x as i32, y: y as i32 }) ==> #[trigger] f.glyph(
                x,
                y,
            ) == o.glyph(x, y)
        &&& forall|x: int, y: int|
            f.in_grid(x, y) ==> #[trigger] f.fg_at(x, y) == if self.header.covers(
                Pos { x: x as i32, y: y as i32 },
            ) {
                spec_colorcode(Color::Black) as i32
            } else {
                o.fg_at(x, y)
            }
        &&& forall|x: int, y: int|
            f.in_grid(x, y) ==> #[trigger] f.bg_at(x, y) == if self.header.covers(
                Pos { x: x as i32, y: y as i32 },
            ) {
                spec_colorcode(Color::Yellow) as i32
            } else {
                o.bg_at(x, y)
            }
    }

    /// The colors of `f`: the cursor bands, the gutter, the header, and
    /// elsewhere those of `o`.
    pub open spec fn colors_painted(&self, o: Framebuffer, f: Framebuffer, csp: Pos) -> bool {
        &&& forall|x: int, y: int|
            f.in_grid(x, y) ==> #[trigger] f.fg_at(x, y) == if self.in_band(csp, x, y) {
                spec_colorcode(Color::Black) as i32
            } else if self.linenoarea.covers(Pos { x: x as i32, y: y as i32 }) {
                spec_colorcode(Color::Green) as i32
            } else if self.header.covers(Pos { x: x as i32, y: y as i32 }) {
                spec_colorcode(Color::Black) as i32
            } else {
                o.fg_at(x, y)
            }
        &&& forall|x: int, y: int|
            f.in_grid(x, y) ==> #[trigger] f.bg_at(x, y) == if self.in_band(csp, x, y) {
                spec_colorcode(Color::Gray(15)) as i32
            } else if self.linenoarea.covers(Pos { x: x as i32, y: y as i32 }) {
                spec_colorcode(Color::White) as i32
            } else if self.header.covers(Pos { x: x as i32, y: y as i32 }) {
                spec_colorcode(Color::Yellow) as i32
            } else {
                o.bg_at(x, y)
            }
    }

    /// Like `screen_shows`, wherever `area` does not cover the frame.
    pub open spec fn screen_shows_except(
        &self,
        fb: Framebuffer,
        hdr: Seq<u8>,
        lines: Seq<Seq<u8>>,
        offset: Pos,
        rows: int,
        area: Rec,
    ) -> bool {
        &&& shows_line_except(fb, self.header.min, hdr, area)
        &&& forall|k: int|
            0 <= k < rows ==> #[trigger] shows_line_except(
                fb,
                Pos { x: self.textarea.min.x, y: (self.textarea.min.y + k) as i32 },
                visible_line(lines, offset, k),
                area,
            )
    }

    pub(crate) proof fn lemma_screen_shows_except(
        &self,
        a: Framebuffer,
        hdr: Seq<u8>,
        lines: Seq<Seq<u8>>,
        offset: Pos,
        rows: int,
        area: Rec,
    )
        requires
            self.screen_shows(a, hdr, lines, offset, rows),
        ensures
            self.screen_shows_except(a, hdr, lines, offset, rows, area),
    {
        assert forall|k: int| 0 <= k < rows implies #[trigger] shows_line_except(
            a,
            Pos { x: self.textarea.min.x, y: (self.textarea.min.y + k) as i32 },
            visible_line(lines, offset, k),
            area,
        ) by {
            assert(shows_line(
                a,
                Pos { x: self.textarea.min.x, y: (self.textarea.min.y + k) as i32 },
                visible_line(lines, offset, k),
            ));
        }
    }

    pub(crate) proof fn lemma_screen_except_kept(
        &self,
        a: Framebuffer,
        b: Framebuffer,
        hdr: Seq<u8>,
        lines: Seq<Seq<u8>>,
        offset: Pos,
        rows: int,
        area: Rec,
    )
        requires
            self.laid_out(),
            self.window.min.y == 0,
            0 <= self.window.min.x,
            self.window.max.y <= a.height(),
            rows <= self.textarea.max.y - self.textarea.min.y,
            self.screen_shows_except(a, hdr, lines, offset, rows, area),
            b.width() == a.width(),
            b.height() == a.height(),
            forall|x: int, y: int|
                a.in_grid(x, y) && y < self.window.max.y && !area.covers(Pos { x: x as i32, y: y as i32 })
                    ==> #[trigger] b.glyph(x, y) == a.glyph(x, y),
        ensures
            self.screen_shows_except(b, hdr, lines, offset, rows, area),
    {
        let hm = self.header.min;
        assert forall|j: int|
            0 <= j < hdr.len() && hm.x + j < b.width() && !area.covers(
                Pos { x: (hm.x + j) as i32, y: hm.y },
            ) implies b.glyph(hm.x + j, hm.y as int) == #[trigger] hdr[j] by {
            assert(a.glyph(hm.x + j, hm.y as int) == hdr[j]);
            assert(a.in_grid(hm.x + j, hm.y as int));
        }
        assert forall|k: int| 0 <= k < rows implies #[trigger] shows_line_except(
            b,
            Pos { x: self.textarea.min.x, y: (self.textarea.min.y + k) as i32 },
            visible_line(lines, offset, k),
            area,
        ) by {
            let at = Pos { x: self.textarea.min.x, y: (self.textarea.min.y + k) as i32 };
            let l = visible_line(lines, offset, k);
            assert(shows_line_except(a, at, l, area));
            assert forall|j: int|
                0 <= j < l.len() && at.x + j < b.width() && !area.covers(
                    Pos { x: (at.x + j) as i32, y: at.y },
                ) implies b.glyph(at.x + j, at.y as int) == #[trigger] l[j] by {
                assert(a.glyph(at.x + j, at.y as int) == l[j]);
                assert(a.in_grid(at.x + j, at.y as int));
            }
        }
    }

    proof fn lemma_numbers_kept(&self, a: Framebuffer, b: Framebuffer, base: int, rows: int)
        requires
            self.numbers_shown(a, base, rows),
            b.width() == a.width(),
            b.height() == a.height(),
            forall|x: int, y: int| a.in_grid(x, y) ==> #[trigger] b.glyph(x, y) == a.glyph(x, y),
            0 <= self.linenoarea.min.x,
            0 <= self.linenoarea.min.y,
            self.linenoarea.min.y + rows <= a.height(),
        ensures
            self.numbers_shown(b, base, rows),
    {
        assert forall|k: int| 0 <= k < rows implies #[trigger] shows_line(
            b,
            Pos { x: self.linenoarea.min.x, y: (self.linenoarea.min.y + k) as i32 },
            right_aligned(4, base + k, SPACE_BYTE),
        ) by {
            let at = Pos { x: self.linenoarea.min.x, y: (self.linenoarea.min.y + k) as i32 };
            let l = right_aligned(4, base + k, SPACE_BYTE);
            assert(shows_line(a, at, l));
            assert forall|j: int| 0 <= j < l.len() && at.x + j < b.width() implies b.glyph(
                at.x + j,
                at.y as int,
            ) == #[trigger] l[j] by {
                assert(a.glyph(at.x + j, at.y as int) == l[j]);
                assert(a.in_grid(at.x + j, at.y as int));
            }
        }
    }

    proof fn lemma_screen_kept(
        &self,
        a: Framebuffer,
        b: Framebuffer,
        hdr: Seq<u8>,
        lines: Seq<Seq<u8>>,
        offset: Pos,
        rows: int,
    )
        requires
            self.laid_out(),
            self.window.min.y == 0,
            0 <= self.window.min.x,
            self.window.max.y <= a.height(),
            rows <= self.textarea.max.y - self.textarea.min.y,
            self.screen_shows(a, hdr, lines, offset, rows),
            b.width() == a.width(),
            b.height() == a.height(),
            forall|x: int, y: int|
                a.in_grid(x, y) && (y == 0 || x >= LINENO_LEN) ==> #[trigger] b.glyph(x, y) == a.glyph(
                    x,
                    y,
                ),
        ensures
            self.screen_shows(b, hdr, lines, offset, rows),
    {
        let hm = self.header.min;
        assert forall|j: int| 0 <= j < hdr.len() && hm.x + j < b.width() implies b.glyph(
            hm.x + j,
            hm.y as int,
        ) == #[trigger] hdr[j] by {
            assert(shows_line(a, hm, hdr));
            assert(a.glyph(hm.x + j, hm.y as int) == hdr[j]);
            assert(a.in_grid(hm.x + j, hm.y as int));
        }
        assert forall|k: int| 0 <= k < rows implies #[trigger] shows_line(
            b,
            Pos { x: self.textarea.min.x, y: (self.textarea.min.y + k) as i32 },
            visible_line(lines, offset, k),
        ) by {
            let at = Pos { x: self.textarea.min.x, y: (self.textarea.min.y + k) as i32 };
            let l = visible_line(lines, offset, k);
            assert(shows_line(a, at, l));
            assert forall|j: int| 0 <= j < l.len() && at.x + j < b.width() implies b.glyph(
                at.x + j,
                at.y as int,
            ) == #[trigger] l[j] by {
                assert(a.glyph(at.x + j, at.y as int) == l[j]);
                assert(a.in_grid(at.x + j, at.y as int));
            }
        }
    }

    /// Paints the header, the visible lines of the buffer from
    /// `buffer_offset`, the line numbers and the cursor bands.
    pub fn put_text(&self, framebuffer: &mut Framebuffer, drawinfo: &Drawinfo)
        requires
            self.laid_out(),
            0 <= self.window.min.x,
            0 <= self.window.min.y,
            self.window.max.x == old(framebuffer).width(),
            self.window.max.y <= old(framebuffer).height(),
            old(framebuffer).wf(),
            self.window.min.y == 0,
            self.window.min.x + 4 <= LINENO_LEN,
            drawinfo.buffer.wf(),
            drawinfo.buffer.history().lines.len() <= i32::MAX,
            0 <= drawinfo.buffer_offset.x,
            0 <= drawinfo.buffer_offset.y,
            drawinfo.buffer_offset.y + self.window.max.y <= i32::MAX,
            0 <= drawinfo.cursor.x < i32::MAX / 2,
            0 <= drawinfo.cursor.y < i32::MAX / 2,
            drawinfo.buffer_offset.x <= i32::MAX / 2,
            drawinfo.buffer_offset.y <= i32::MAX / 2,
        ensures
            final(framebuffer).wf(),
            final(framebuffer).width() == old(framebuffer).width(),
            final(framebuffer).height() == old(framebuffer).height(),
            drawinfo.draw == Draw::Nothing ==> *final(framebuffer) == *old(framebuffer),
            drawinfo.draw != Draw::Nothing ==> shows_line(*final(framebuffer), self.header.min, drawinfo.header@),
            drawinfo.draw == Draw::Header ==> self.header_only(*old(framebuffer), *final(framebuffer)),
            drawinfo.draw == Draw::All ==> self.colors_painted(
                *old(framebuffer),
                *final(framebuffer),
                self.cursor_cell(drawinfo),
            ),
            drawinfo.draw == Draw::All ==> self.numbers_shown(
                *final(framebuffer),
                self.lineno_base(drawinfo),
                self.textarea.max.y - self.textarea.min.y,
            ),
            drawinfo.draw == Draw::All && drawinfo.is_active ==> final(framebuffer).cursor_pos() == (Pos {
                x: clamp_int(self.cursor_cell(drawinfo).x as int, 0, old(framebuffer).width() - 1) as i32,
                y: clamp_int(self.cursor_cell(drawinfo).y as int, 0, old(framebuffer).height() - 1) as i32,
            }),
            drawinfo.draw == Draw::All && !drawinfo.is_active ==> final(framebuffer).cursor_pos()
                == old(framebuffer).cursor_pos(),
            drawinfo.draw == Draw::All ==> forall|i: int|
                0 <= i < visible_rows(
                    drawinfo.buffer.history().lines,
                    drawinfo.buffer_offset,
                    self.textarea.max.y - self.textarea.min.y,
                ) ==> #[trigger] shows_line(
                    *final(framebuffer),
                    Pos { x: self.textarea.min.x, y: (self.textarea.min.y + i) as i32 },
                    visible_line(drawinfo.buffer.history().lines, drawinfo.buffer_offset, i),
                ),
    {
        let c = conf();
        let file_base_offset = drawinfo.buffer_offset;
        let frame_base_offset = self.textarea.min;
        if drawinfo.draw == Draw::Nothing {
            return;
        }
        framebuffer.put_line(self.header.min, drawinfo.header);
        proof {
            let fb = *framebuffer;
            let hm = self.header.min;
            let hd = drawinfo.header@;
            assert forall|j: int| 0 <= j < hd.len() && hm.x + j < fb.width() implies fb.glyph(
                hm.x + j,
                hm.y as int,
            ) == #[trigger] hd[j] by {
                assert(fb.in_grid(hm.x + j, hm.y as int));
            }
        }
        let ghost after_header = *framebuffer;
        framebuffer.put_color(self.header, c.color_header_active);
        proof {
            self.lemma_screen_kept(
                after_header,
                *framebuffer,
                drawinfo.header@,
                drawinfo.buffer.history().lines,
                drawinfo.buffer_offset,
                0,
            );
            let o = *old(framebuffer);
            let f = *framebuffer;
            assert forall|x: int, y: int|
                f.in_grid(x, y) && !self.header.covers(Pos { x: x as i32, y: y as i32 }) implies #[trigger] f.glyph(
                x,
                y,
            ) == o.glyph(x, y) by {
                assert(after_header.glyph(x, y) == o.glyph(x, y));
            }
            assert forall|x: int, y: int| f.in_grid(x, y) implies #[trigger] f.fg_at(x, y) == if self.header.covers(
                Pos { x: x as i32, y: y as i32 },
            ) {
                spec_colorcode(Color::Black) as i32
            } else {
                o.fg_at(x, y)
            } by {
                assert(after_header.fg_at(x, y) == o.fg_at(x, y));
            }
            assert forall|x: int, y: int| f.in_grid(x, y) implies #[trigger] f.bg_at(x, y) == if self.header.covers(
                Pos { x: x as i32, y: y as i32 },
            ) {
                spec_colorcode(Color::Yellow) as i32
            } else {
                o.bg_at(x, y)
            } by {
                assert(after_header.bg_at(x, y) == o.bg_at(x, y));
            }
            assert(self.header_only(o, f));
        }
        let ghost painted_header = *framebuffer;
        if drawinfo.draw == Draw::Header {
            return;
        }
        let ghost lines = drawinfo.buffer.history().lines;
        let ghost hdr = drawinfo.header@;
        let h = self.textarea.max.y - self.textarea.min.y;
        let nlines = drawinfo.buffer.nlines();
        let avail = nlines - file_base_offset.y;
        let y_stop = if h < avail {
            h
        } else {
            avail
        };
        let mut i: i32 = 0;
        while i < y_stop
            invariant
                framebuffer.wf(),
                framebuffer.width() == old(framebuffer).width(),
                framebuffer.height() == old(framebuffer).height(),
                drawinfo.buffer.wf(),
                self.laid_out(),
                self.window.max.y <= framebuffer.height(),
                self.window.max.x <= framebuffer.width(),
                frame_base_offset == self.textarea.min,
                file_base_offset == drawinfo.buffer_offset,
                0 <= file_base_offset.x,
                0 <= file_base_offset.y,
                y_stop <= h,
                h == self.textarea.max.y - self.textarea.min.y,
                y_stop <= nlines - file_base_offset.y,
                nlines == drawinfo.buffer.history().lines.len(),
                lines == drawinfo.buffer.history().lines,
                hdr == drawinfo.header@,
                0 <= i,
                i <= y_stop || i == 0,
                self.window.min.y == 0,
                0 <= self.window.min.x,
                shows_line(*framebuffer, self.header.min, hdr),
                painted_header.width() == framebuffer.width(),
                painted_header.height() == framebuffer.height(),
                framebuffer.cursor_pos() == old(framebuffer).cursor_pos(),
                forall|x: int, y: int|
                    framebuffer.in_grid(x, y) ==> #[trigger] framebuffer.fg_at(x, y)
                        == painted_header.fg_at(x, y),
                forall|x: int, y: int|
                    framebuffer.in_grid(x, y) ==> #[trigger] framebuffer.bg_at(x, y)
                        == painted_header.bg_at(x, y),
                forall|k: int|
                    0 <= k < i ==> #[trigger] shows_line(
                        *framebuffer,
                        Pos { x: self.textarea.min.x, y: (self.textarea.min.y + k) as i32 },
                        visible_line(lines, file_base_offset, k),
                    ),
            decreases y_stop - i,
        {
            let line = drawinfo.buffer.line_get_slice(pos(file_base_offset.x, file_base_offset.y + i));
            let ghost prev = *framebuffer;
            let at = pos(frame_base_offset.x, frame_base_offset.y + i);
            framebuffer.put_line(at, line);
            proof {
                let fb = *framebuffer;
                assert forall|x: int, y: int| fb.in_grid(x, y) implies #[trigger] fb.fg_at(x, y)
                    == painted_header.fg_at(x, y) by {
                    assert(prev.fg_at(x, y) == painted_header.fg_at(x, y));
                }
                assert forall|x: int, y: int| fb.in_grid(x, y) implies #[trigger] fb.bg_at(x, y)
                    == painted_header.bg_at(x, y) by {
                    assert(prev.bg_at(x, y) == painted_header.bg_at(x, y));
                }
                assert forall|k: int| 0 <= k < i + 1 implies #[trigger] shows_line(
                    fb,
                    Pos { x: self.textarea.min.x, y: (self.textarea.min.y + k) as i32 },
                    visible_line(lines, file_base_offset, k),
                ) by {
                    let l = visible_line(lines, file_base_offset, k);
                    let a = Pos { x: self.textarea.min.x, y: (self.textarea.min.y + k) as i32 };
                    if k < i {
                        assert(shows_line(prev, a, l));
                        assert forall|j: int| 0 <= j < l.len() && a.x + j < fb.width() implies fb.glyph(
                            a.x + j,
                            a.y as int,
                        ) == #[trigger] l[j] by {
                            assert(prev.glyph(a.x + j, a.y as int) == l[j]);
                            assert(fb.in_grid(a.x + j, a.y as int));
                        }
                    } else {
                        assert(line@ == l);
                        assert forall|j: int| 0 <= j < l.len() && a.x + j < fb.width() implies fb.glyph(
                            a.x + j,
                            a.y as int,
                        ) == #[trigger] l[j] by {
                            assert(fb.in_grid(a.x + j, a.y as int));
                        }
                    }
                }
                let hm = self.header.min;
                assert forall|j: int| 0 <= j < hdr.len() && hm.x + j < fb.width() implies fb.glyph(
                    hm.x + j,
                    hm.y as int,
                ) == #[trigger] hdr[j] by {
                    assert(prev.glyph(hm.x + j, hm.y as int) == hdr[j]);
                    assert(fb.in_grid(hm.x + j, hm.y as int));
                }
            }
            i = i + 1;
        }
        let ghost rows: int = i as int;
        let mut buf: [u8; 4] = [32u8; 4];
        let lineno_base = if drawinfo.relative_lineno {
            file_base_offset.y - drawinfo.cursor.y
        } else {
            file_base_offset.y + 1
        };
        let mut k: i32 = 0;
        while k < h
            invariant
                framebuffer.wf(),
                framebuffer.width() == old(framebuffer).width(),
                framebuffer.height() == old(framebuffer).height(),
                self.laid_out(),
                self.window.max.y <= framebuffer.height(),
                self.window.max.x <= framebuffer.width(),
                0 <= self.window.min.x,
                h == self.textarea.max.y - self.textarea.min.y,
                -(i32::MAX / 2) <= lineno_base,
                lineno_base + h <= i32::MAX,
                0 <= k,
                self.window.min.y == 0,
                self.window.min.x + 4 <= LINENO_LEN,
                0 <= rows <= h,
                self.screen_shows(*framebuffer, hdr, lines, file_base_offset, rows),
                k <= h,
                lineno_base == self.lineno_base(drawinfo),
                self.numbers_shown(*framebuffer, lineno_base as int, k as int),
                painted_header.width() == framebuffer.width(),
                painted_header.height() == framebuffer.height(),
                framebuffer.cursor_pos() == old(framebuffer).cursor_pos(),
                forall|x: int, y: int|
                    framebuffer.in_grid(x, y) ==> #[trigger] framebuffer.fg_at(x, y)
                        == painted_header.fg_at(x, y),
                forall|x: int, y: int|
                    framebuffer.in_grid(x, y) ==> #[trigger] framebuffer.bg_at(x, y)
                        == painted_header.bg_at(x, y),
            decreases h - k,
        {
            itoa10_right(&mut buf, lineno_base + k, 32u8);
            let b: &[u8] = &buf;
            let ghost prev = *framebuffer;
            let at = pos(self.linenoarea.min.x, self.linenoarea.min.y + k);
            framebuffer.put_line(at, b);
            proof {
                self.lemma_screen_kept(prev, *framebuffer, hdr, lines, file_base_offset, rows);
                let fb = *framebuffer;
                assert forall|x: int, y: int| fb.in_grid(x, y) implies #[trigger] fb.fg_at(x, y)
                    == painted_header.fg_at(x, y) by {
                    assert(prev.fg_at(x, y) == painted_header.fg_at(x, y));
                }
                assert forall|x: int, y: int| fb.in_grid(x, y) implies #[trigger] fb.bg_at(x, y)
                    == painted_header.bg_at(x, y) by {
                    assert(prev.bg_at(x, y) == painted_header.bg_at(x, y));
                }
                let base = lineno_base as int;
                assert forall|j: int| 0 <= j < k + 1 implies #[trigger] shows_line(
                    fb,
                    Pos { x: self.linenoarea.min.x, y: (self.linenoarea.min.y + j) as i32 },
                    right_aligned(4, base + j, SPACE_BYTE),
                ) by {
                    let a = Pos { x: self.linenoarea.min.x, y: (self.linenoarea.min.y + j) as i32 };
                    let l = right_aligned(4, base + j, SPACE_BYTE);
                    if j < k {
                        assert(shows_line(prev, a, l));
                        assert forall|t: int| 0 <= t < l.len() && a.x + t < fb.width() implies fb.glyph(
                            a.x + t,
                            a.y as int,
                        ) == #[trigger] l[t] by {
                            assert(prev.glyph(a.x + t, a.y as int) == l[t]);
                            assert(fb.in_grid(a.x + t, a.y as int));
                        }
                    } else {
                        assert(b@ == l);
                        assert forall|t: int| 0 <= t < l.len() && a.x + t < fb.width() implies fb.glyph(
                            a.x + t,
                            a.y as int,
                        ) == #[trigger] l[t] by {
                            assert(fb.in_grid(a.x + t, a.y as int));
                        }
                    }
                }
            }
            k = k + 1;
        }
        let ghost prev = *framebuffer;
        framebuffer.put_color(self.linenoarea, c.color_lineno);
        proof {
            self.lemma_screen_kept(prev, *framebuffer, hdr, lines, file_base_offset, rows);
            self.lemma_numbers_kept(prev, *framebuffer, lineno_base as int, h as int);
        }
        let ghost gutter = *framebuffer;
        let csp = pos(
            drawinfo.cursor.x + self.textarea.min.x - file_base_offset.x,
            drawinfo.cursor.y + self.textarea.min.y - file_base_offset.y,
        );
        if drawinfo.is_active {
            let ghost prev = *framebuffer;
            framebuffer.set_cursor(csp);
            proof {
                self.lemma_screen_kept(prev, *framebuffer, hdr, lines, file_base_offset, rows);
                self.lemma_numbers_kept(prev, *framebuffer, lineno_base as int, h as int);
            }
        }
        if self.textarea.min.x <= csp.x && csp.x < self.textarea.max.x && self.textarea.min.y <= csp.y
            && csp.y < self.textarea.max.y {
            let ghost prev = *framebuffer;
            framebuffer.put_color(self.textarea.row(csp.y), c.color_cursor_lines);
            proof {
                self.lemma_screen_kept(prev, *framebuffer, hdr, lines, file_base_offset, rows);
                self.lemma_numbers_kept(prev, *framebuffer, lineno_base as int, h as int);
            }
            let ghost prev2 = *framebuffer;
            framebuffer.put_color(self.textarea.column(csp.x), c.color_cursor_lines);
            proof {
                self.lemma_screen_kept(prev2, *framebuffer, hdr, lines, file_base_offset, rows);
                self.lemma_numbers_kept(prev2, *framebuffer, lineno_base as int, h as int);
                let f = *framebuffer;
                assert forall|x: int, y: int| f.in_grid(x, y) implies #[trigger] f.fg_at(x, y)
                    == if self.in_band(csp, x, y) {
                    spec_colorcode(Color::Black) as i32
                } else {
                    gutter.fg_at(x, y)
                } by {
                    assert(prev.fg_at(x, y) == gutter.fg_at(x, y));
                    assert(prev2.fg_at(x, y) == prev2.fg_at(x, y));
                }
                assert forall|x: int, y: int| f.in_grid(x, y) implies #[trigger] f.bg_at(x, y)
                    == if self.in_band(csp, x, y) {
                    spec_colorcode(Color::Gray(15)) as i32
                } else {
                    gutter.bg_at(x, y)
                } by {
                    assert(prev.bg_at(x, y) == gutter.bg_at(x, y));
                    assert(prev2.bg_at(x, y) == prev2.bg_at(x, y));
                }
            }
        }
        proof {
            assert(self.screen_shows(*framebuffer, hdr, lines, file_base_offset, rows));
            assert(rows >= visible_rows(lines, file_base_offset, h as int));
            let f = *framebuffer;
            let o = *old(framebuffer);
            assert(csp == self.cursor_cell(drawinfo));
            assert forall|x: int, y: int| f.in_grid(x, y) implies #[trigger] f.fg_at(x, y)
                == if self.in_band(csp, x, y) {
                spec_colorcode(Color::Black) as i32
            } else if self.linenoarea.covers(Pos { x: x as i32, y: y as i32 }) {
                spec_colorcode(Color::Green) as i32
            } else if self.header.covers(Pos { x: x as i32, y: y as i32 }) {
                spec_colorcode(Color::Black) as i32
            } else {
                o.fg_at(x, y)
            } by {
                assert(gutter.fg_at(x, y) == gutter.fg_at(x, y));
                assert(prev.fg_at(x, y) == painted_header.fg_at(x, y));
                assert(painted_header.fg_at(x, y) == painted_header.fg_at(x, y));
            }
            assert forall|x: int, y: int| f.in_grid(x, y) implies #[trigger] f.bg_at(x, y)
                == if self.in_band(csp, x, y) {
                spec_colorcode(Color::Gray(15)) as i32
            } else if self.linenoarea.covers(Pos { x: x as i32, y: y as i32 }) {
                spec_colorcode(Color::White) as i32
            } else if self.header.covers(Pos { x: x as i32, y: y as i32 }) {
                spec_colorcode(Color::Yellow) as i32
            } else {
                o.bg_at(x, y)
            } by {
                assert(gutter.bg_at(x, y) == gutter.bg_at(x, y));
                assert(prev.bg_at(x, y) == painted_header.bg_at(x, y));
                assert(painted_header.bg_at(x, y) == painted_header.bg_at(x, y));
            }
        }
    }
}

} // verus!

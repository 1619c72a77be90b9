//! The editor: one buffer, its view and screen, and the mode machine that
//! turns inputs into edits and movements.

use vstd::prelude::*;
use vstd::string::StringSliceAdditionalSpecFns;
use crate::geometry::{Pos, Rec, pos};
use crate::color::{Colorcell, conf};
use crate::input::{Input, is_printable, SPACE, CTRL_C, CTRL_D, CTRL_U, CTRL_H, CTRL_L, CTRL_X, CTRL_R,
    ENTER, ESC, TAB, DEL, BACKSPACE};
use crate::text::{
    Buffer, History, EditState, InsertMode, Opresult, edit_model, snapshot_model, undo_model,
    redo_model, typed, broken, joined, deleted, backspaced, delete_cursor, backspace_cursor,
};
use crate::view::{
    FileView, within_limits, cursor_on_text, clamp_cursor, scrolled, recentered, TEXT_LIMIT, PAGE_LINES,
};
use crate::draw::{Screen, Framebuffer, Drawinfo, Draw, shows_line, visible_rows, console_area};
use crate::color::{Color, cell};
use crate::util::{Debugconsole, SPACE_BYTE};

verus! {

#[derive(Debug, Clone, Copy, PartialEq, Eq, Structural)]
pub enum Mode {
    Exit,
    Command,
    Insert(InsertMode),
    PendingInsert(InsertMode),
}

#[derive(Debug, Clone, Copy, PartialEq, Eq, Structural)]
pub enum Move {
    Left,
    Right,
    Up,
    Down,
    Start,
    End,
}

#[derive(Debug, Clone, Copy, PartialEq, Eq, Structural)]
pub enum MoveOp {
    Movement(Move),
    Recenter,
    PageUp,
    PageDown,
    FileStart,
    FileEnd,
}

#[derive(Debug, Clone, Copy, PartialEq, Eq, Structural)]
pub enum BufferOpType {
    LineDel,
    LineNew,
    LineJoin,
    LineBreak,
    CharDelete,
    CharBackspace,
    Undo,
    Redo,
}

#[derive(Debug, Clone, Copy, PartialEq, Eq, Structural)]
pub enum CommandOp {
    BufferOp(Pos, BufferOpType),
    BufferMove(MoveOp),
    Save,
    SwitchInsert,
    SwitchReplace,
    ClearConsole,
    Noop,
}

#[derive(Debug, Clone, Copy, PartialEq, Eq, Structural)]
pub enum InsertOpType {
    LineBreak,
    TabInsert,
    CharInsert(char),
    Delete,
    Backspace,
    SwitchCommand,
    Noop,
}

#[derive(Debug, Clone, Copy, PartialEq, Eq, Structural)]
pub struct InsertOp {
    pub cursor: Pos,
    pub optype: InsertOpType,
    pub mode: InsertMode,
}

/// What the caller has to do after an input: the editor does no I/O.
#[derive(Debug, Clone, Copy, PartialEq, Eq, Structural)]
pub enum Effect {
    Nothing,
    /// Write the buffer out.
    Save,
}

/// The mode after input `i` in mode `m`.
pub open spec fn next_mode(m: Mode, i: Input) -> Mode {
    if i == Input::Key(CTRL_C) {
        Mode::Exit
    } else if i == Input::Resize {
        match m {
            Mode::PendingInsert(s) => Mode::Insert(s),
            _ => m,
        }
    } else {
        match m {
            Mode::Command => if i == Input::Key(TAB) {
                Mode::PendingInsert(InsertMode::Insert)
            } else if i == Input::Key(CTRL_R) {
                Mode::PendingInsert(InsertMode::Replace)
            } else {
                Mode::Command
            },
            Mode::Insert(s) => if i == Input::Key(ESC) || i == Input::EscZ {
                Mode::Command
            } else {
                Mode::Insert(s)
            },
            Mode::PendingInsert(s) => if i == Input::Key(ESC) || i == Input::EscZ {
                Mode::Command
            } else {
                Mode::Insert(s)
            },
            Mode::Exit => Mode::Exit,
        }
    }
}

/// A cursor that may stand one step off the text.
pub open spec fn cursor_in_range(p: Pos) -> bool {
    -1 <= p.x <= TEXT_LIMIT + 2 && -1 <= p.y <= TEXT_LIMIT + 2
}

pub open spec fn state_ok(s: EditState) -> bool {
    within_limits(s.lines) && cursor_in_range(s.cursor)
}

/// The lines and every state that undo or redo can lead to stay within the
/// coordinate limits.
pub open spec fn history_ok(h: History) -> bool {
    &&& within_limits(h.lines)
    &&& forall|i: int| 0 <= i < h.undo.len() ==> state_ok(#[trigger] h.undo[i])
    &&& forall|i: int| 0 <= i < h.redo.len() ==> state_ok(#[trigger] h.redo[i])
}

proof fn lemma_history_snapshot_edit(h: History, c: Pos, lines: Seq<Seq<u8>>)
    requires
        history_ok(h),
        cursor_in_range(c),
        within_limits(lines),
    ensures
        history_ok(snapshot_model(h, c)),
        history_ok(edit_model(h, lines)),
        history_ok(edit_model(snapshot_model(h, c), lines)),
{
    let s = snapshot_model(h, c);
    assert forall|i: int| 0 <= i < s.undo.len() implies state_ok(#[trigger] s.undo[i]) by {
        if i < h.undo.len() {
            assert(s.undo[i] == h.undo[i]);
        }
    }
}

proof fn lemma_history_undo_redo(h: History, c: Pos)
    requires
        history_ok(h),
        cursor_in_range(c),
    ensures
        history_ok(undo_model(h, c)),
        history_ok(redo_model(h, c)),
{
    if h.undo.len() > 0 {
        let u = undo_model(h, c);
        assert(state_ok(h.undo[h.undo.len() - 1]));
        assert forall|i: int| 0 <= i < u.redo.len() implies state_ok(#[trigger] u.redo[i]) by {
            if i < h.redo.len() {
                assert(u.redo[i] == h.redo[i]);
            }
        }
        assert forall|i: int| 0 <= i < u.undo.len() implies state_ok(#[trigger] u.undo[i]) by {
            assert(u.undo[i] == h.undo[i]);
        }
    }
    if h.redo.len() > 0 {
        let r = redo_model(h, c);
        assert(state_ok(h.redo[h.redo.len() - 1]));
        assert forall|i: int| 0 <= i < r.undo.len() implies state_ok(#[trigger] r.undo[i]) by {
            if i < h.undo.len() {
                assert(r.undo[i] == h.undo[i]);
            }
        }
        assert forall|i: int| 0 <= i < r.redo.len() implies state_ok(#[trigger] r.redo[i]) by {
            assert(r.redo[i] == h.redo[i]);
        }
    }
}

/// Editing line `y` into `l` keeps the limits when `l` does.
proof fn lemma_limits_update(lines: Seq<Seq<u8>>, y: int, l: Seq<u8>)
    requires
        within_limits(lines),
        0 <= y < lines.len(),
        l.len() <= TEXT_LIMIT,
    ensures
        within_limits(lines.update(y, l)),
{
    assert forall|k: int| 0 <= k < lines.len() implies (#[trigger] lines.update(y, l)[k]).len()
        <= TEXT_LIMIT by {
        if k != y {
            assert(lines.update(y, l)[k] == lines[k]);
        }
    }
}

proof fn lemma_limits_remove(lines: Seq<Seq<u8>>, y: int)
    requires
        within_limits(lines),
        0 <= y < lines.len(),
    ensures
        within_limits(lines.remove(y)),
{
    assert forall|k: int| 0 <= k < lines.len() - 1 implies (#[trigger] lines.remove(y)[k]).len()
        <= TEXT_LIMIT by {
        if k < y {
            assert(lines.remove(y)[k] == lines[k]);
        } else {
            assert(lines.remove(y)[k] == lines[k + 1]);
        }
    }
}

proof fn lemma_limits_insert(lines: Seq<Seq<u8>>, y: int, l: Seq<u8>)
    requires
        within_limits(lines),
        lines.len() < TEXT_LIMIT,
        0 <= y <= lines.len(),
        l.len() <= TEXT_LIMIT,
    ensures
        within_limits(lines.insert(y, l)),
{
    assert forall|k: int| 0 <= k < lines.len() + 1 implies (#[trigger] lines.insert(y, l)[k]).len()
        <= TEXT_LIMIT by {
        if k < y {
            assert(lines.insert(y, l)[k] == lines[k]);
        } else if k > y {
            assert(lines.insert(y, l)[k] == lines[k - 1]);
        }
    }
}

proof fn lemma_limits_joined(lines: Seq<Seq<u8>>, y: int)
    requires
        within_limits(lines),
        0 <= y,
        y + 1 < lines.len(),
        lines[y].len() + lines[y + 1].len() <= TEXT_LIMIT,
    ensures
        within_limits(joined(lines, y)),
{
    lemma_limits_update(lines, y, lines[y] + lines[y + 1]);
    lemma_limits_remove(lines.update(y, lines[y] + lines[y + 1]), y + 1);
}

proof fn lemma_limits_deleted(lines: Seq<Seq<u8>>, x: int, y: int)
    requires
        within_limits(lines),
        0 <= y < lines.len(),
        0 <= x,
        lines[y].len() == 0 || x < lines[y].len(),
        y + 1 >= lines.len() || lines[y].len() + lines[y + 1].len() <= TEXT_LIMIT,
    ensures
        within_limits(deleted(lines, x, y)),
{
    let l = lines[y];
    if l.len() == 0 {
        lemma_limits_remove(lines, y);
    } else if y == lines.len() - 1 || x != l.len() - 1 {
        lemma_limits_update(lines, y, l.remove(x));
    } else if lines[y + 1].len() == 0 {
        lemma_limits_remove(lines, y + 1);
    } else {
        let u = lines.update(y, l.remove(x));
        lemma_limits_update(lines, y, l.remove(x));
        assert(u[y + 1] == lines[y + 1]);
        lemma_limits_joined(u, y);
    }
}

proof fn lemma_limits_backspaced(lines: Seq<Seq<u8>>, x: int, y: int)
    requires
        within_limits(lines),
        0 <= y < lines.len(),
        0 <= x <= lines[y].len(),
        !(x == 0 && y == 0),
        y == 0 || lines[y - 1].len() + lines[y].len() <= TEXT_LIMIT,
    ensures
        within_limits(backspaced(lines, x, y)),
{
    if lines[y].len() == 0 {
        lemma_limits_remove(lines, y);
    } else if x == 0 && lines[y - 1].len() == 0 {
        lemma_limits_remove(lines, y - 1);
    } else if x == 0 {
        lemma_limits_joined(lines, y - 1);
    } else {
        lemma_limits_update(lines, y, lines[y].remove(x - 1));
    }
}

/// Whether buffer operation `op` is made at `p` on `lines`: it needs a
/// place to act on, and must keep the coordinate limits.
pub open spec fn op_allowed(lines: Seq<Seq<u8>>, p: Pos, op: BufferOpType) -> bool {
    let n = lines.len();
    let x = p.x as int;
    let y = p.y as int;
    match op {
        BufferOpType::LineDel => n > 0 && 0 <= y < n,
        BufferOpType::LineNew => 0 <= y <= n && n < TEXT_LIMIT,
        BufferOpType::LineJoin => 0 <= y && y + 1 < n && lines[y].len() + lines[y + 1].len()
            <= TEXT_LIMIT,
        BufferOpType::LineBreak => 0 <= y < n && 0 <= x <= lines[y].len() && n < TEXT_LIMIT,
        BufferOpType::CharDelete => 0 <= y < n && 0 <= x && (lines[y].len() == 0 || x
            < lines[y].len()) && (y + 1 >= n || lines[y].len() + lines[y + 1].len() <= TEXT_LIMIT),
        BufferOpType::CharBackspace => 0 <= y < n && 0 <= x <= lines[y].len() && !(x == 0 && y
            == 0) && (y == 0 || lines[y - 1].len() + lines[y].len() <= TEXT_LIMIT),
        BufferOpType::Undo => true,
        BufferOpType::Redo => true,
    }
}

/// The lines after edit `op` at `p`.
pub open spec fn op_lines(lines: Seq<Seq<u8>>, p: Pos, op: BufferOpType) -> Seq<Seq<u8>> {
    let x = p.x as int;
    let y = p.y as int;
    match op {
        BufferOpType::LineDel => lines.remove(y),
        BufferOpType::LineNew => lines.insert(y, Seq::empty()),
        BufferOpType::LineJoin => joined(lines, y),
        BufferOpType::LineBreak => broken(lines, x, y),
        BufferOpType::CharDelete => deleted(lines, x, y),
        BufferOpType::CharBackspace => backspaced(lines, x, y),
        _ => lines,
    }
}

/// Where the cursor goes after edit `op` at `p`.
pub open spec fn op_cursor(lines: Seq<Seq<u8>>, p: Pos, op: BufferOpType) -> Pos {
    match op {
        BufferOpType::LineNew => Pos { x: 0, y: p.y },
        BufferOpType::LineBreak => Pos { x: 0, y: (p.y + 1) as i32 },
        BufferOpType::CharDelete => delete_cursor(lines, p),
        BufferOpType::CharBackspace => backspace_cursor(lines, p),
        _ => p,
    }
}

/// The history after buffer operation `op` at `p`: undo and redo move
/// between checkpoints; an edit that is made comes after a checkpoint.
pub open spec fn buffer_op_history(h: History, p: Pos, op: BufferOpType) -> History {
    match op {
        BufferOpType::Undo => undo_model(h, p),
        BufferOpType::Redo => redo_model(h, p),
        _ => if op_allowed(h.lines, p, op) {
            edit_model(snapshot_model(h, p), op_lines(h.lines, p, op))
        } else {
            h
        },
    }
}

/// The cursor after buffer operation `op` at `p`, `c` being the cursor before.
pub open spec fn buffer_op_cursor(h: History, c: Pos, p: Pos, op: BufferOpType) -> Pos {
    match op {
        BufferOpType::Undo => if h.undo.len() == 0 {
            c
        } else {
            h.undo.last().cursor
        },
        BufferOpType::Redo => if h.redo.len() == 0 {
            c
        } else {
            h.redo.last().cursor
        },
        _ => if op_allowed(h.lines, p, op) {
            op_cursor(h.lines, p, op)
        } else {
            c
        },
    }
}

/// One step of the cursor, kept within the coordinate range.
pub open spec fn step_cursor(c: Pos, m: Move) -> Pos {
    match m {
        Move::Left => if c.x > -1 {
            Pos { x: (c.x - 1) as i32, y: c.y }
        } else {
            c
        },
        Move::Right => if c.x < TEXT_LIMIT + 1 {
            Pos { x: (c.x + 1) as i32, y: c.y }
        } else {
            c
        },
        Move::Up => if c.y > -1 {
            Pos { x: c.x, y: (c.y - 1) as i32 }
        } else {
            c
        },
        Move::Down => if c.y < TEXT_LIMIT + 1 {
            Pos { x: c.x, y: (c.y + 1) as i32 }
        } else {
            c
        },
        _ => c,
    }
}

/// The cursor after move `op` in a buffer of `n` lines.
pub open spec fn move_cursor(op: MoveOp, c: Pos, n: int) -> Pos {
    match op {
        MoveOp::Movement(m) => step_cursor(c, m),
        MoveOp::Recenter => c,
        MoveOp::PageUp => Pos { x: c.x, y: (if c.y - PAGE_LINES > 0 { c.y - PAGE_LINES } else { 0 }) as i32 },
        MoveOp::PageDown => Pos {
            x: c.x,
            y: (if c.y + PAGE_LINES < n - 1 { c.y + PAGE_LINES } else { n - 1 }) as i32,
        },
        MoveOp::FileStart => Pos { x: c.x, y: 0 },
        MoveOp::FileEnd => Pos { x: c.x, y: (n - 1) as i32 },
    }
}

/// The viewport after move `op`: only recentering moves it.
pub open spec fn move_area(op: MoveOp, area: Rec, c: Pos) -> Rec {
    if op == MoveOp::Recenter {
        recentered(area, c)
    } else {
        area
    }
}

/// What a key does in command mode, the cursor being at `c`.
pub open spec fn command_op(i: Input, c: Pos) -> CommandOp {
    match i {
        Input::Key(k) => if k == 'h' {
            CommandOp::BufferMove(MoveOp::Movement(Move::Left))
        } else if k == 'j' {
            CommandOp::BufferMove(MoveOp::Movement(Move::Down))
        } else if k == 'k' {
            CommandOp::BufferMove(MoveOp::Movement(Move::Up))
        } else if k == 'l' {
            CommandOp::BufferMove(MoveOp::Movement(Move::Right))
        } else if k == ' ' {
            CommandOp::BufferMove(MoveOp::Recenter)
        } else if k == CTRL_D {
            CommandOp::BufferMove(MoveOp::PageDown)
        } else if k == CTRL_U {
            CommandOp::BufferMove(MoveOp::PageUp)
        } else if k == CTRL_H {
            CommandOp::BufferMove(MoveOp::FileStart)
        } else if k == CTRL_L {
            CommandOp::BufferMove(MoveOp::FileEnd)
        } else if k == 'o' {
            if c.y < TEXT_LIMIT + 2 {
                CommandOp::BufferOp(Pos { x: c.x, y: (c.y + 1) as i32 }, BufferOpType::LineNew)
            } else {
                CommandOp::Noop
            }
        } else if k == 'O' {
            CommandOp::BufferOp(c, BufferOpType::LineNew)
        } else if k == 'q' {
            CommandOp::BufferOp(c, BufferOpType::LineJoin)
        } else if k == ENTER {
            CommandOp::BufferOp(c, BufferOpType::LineBreak)
        } else if k == 'd' {
            CommandOp::BufferOp(c, BufferOpType::LineDel)
        } else if k == 'x' {
            CommandOp::BufferOp(c, BufferOpType::CharDelete)
        } else if k == CTRL_X {
            CommandOp::BufferOp(c, BufferOpType::CharBackspace)
        } else if k == 'u' {
            CommandOp::BufferOp(c, BufferOpType::Undo)
        } else if k == 'r' {
            CommandOp::BufferOp(c, BufferOpType::Redo)
        } else if k == TAB {
            CommandOp::SwitchInsert
        } else if k == CTRL_R {
            CommandOp::SwitchReplace
        } else if k == 's' {
            CommandOp::Save
        } else if k == '\\' {
            CommandOp::ClearConsole
        } else {
            CommandOp::Noop
        },
        _ => CommandOp::Noop,
    }
}

/// The history after command `op`.
pub open spec fn command_history(h: History, op: CommandOp) -> History {
    match op {
        CommandOp::BufferOp(p, o) => buffer_op_history(h, p, o),
        _ => h,
    }
}

/// The cursor after command `op`, `c` being the cursor before.
pub open spec fn command_cursor(h: History, c: Pos, op: CommandOp) -> Pos {
    match op {
        CommandOp::BufferOp(p, o) => buffer_op_cursor(h, c, p, o),
        CommandOp::BufferMove(m) => move_cursor(m, c, h.lines.len() as int),
        _ => c,
    }
}

/// The viewport after command `op`.
pub open spec fn command_area(area: Rec, c: Pos, op: CommandOp) -> Rec {
    match op {
        CommandOp::BufferMove(m) => move_area(m, area, c),
        _ => area,
    }
}

/// What a key does in insert mode.
pub open spec fn insert_optype(i: Input) -> InsertOpType {
    match i {
        Input::Key(c) => if c == ESC {
            InsertOpType::SwitchCommand
        } else if c == ENTER {
            InsertOpType::LineBreak
        } else if c == TAB {
            InsertOpType::TabInsert
        } else if c == DEL {
            InsertOpType::Backspace
        } else if c == BACKSPACE {
            InsertOpType::Delete
        } else {
            InsertOpType::CharInsert(c)
        },
        Input::EscZ => InsertOpType::SwitchCommand,
        _ => InsertOpType::Noop,
    }
}

pub open spec fn insert_op(mode: InsertMode, i: Input, c: Pos) -> InsertOp {
    InsertOp { cursor: c, optype: insert_optype(i), mode }
}

/// How many spaces a tab types at column `x`: up to the next tab stop.
pub open spec fn tab_width(x: int) -> int {
    TAB_EXPANSION - x % (TAB_EXPANSION as int)
}

/// The lines after typing `k` spaces from column `x` of line `y` in `mode`.
pub open spec fn tabbed(lines: Seq<Seq<u8>>, mode: InsertMode, x: int, y: int, k: nat) -> Seq<Seq<u8>>
    decreases k,
{
    if k == 0 {
        lines
    } else {
        typed(tabbed(lines, mode, x, y, (k - 1) as nat), mode, x + k - 1, y, SPACE_BYTE)
    }
}

/// Whether insert-mode operation `op` changes the buffer.
pub open spec fn insert_allowed(lines: Seq<Seq<u8>>, op: InsertOp) -> bool {
    let p = op.cursor;
    let n = lines.len();
    let x = p.x as int;
    let y = p.y as int;
    match op.optype {
        InsertOpType::LineBreak => op_allowed(lines, p, BufferOpType::LineBreak),
        InsertOpType::TabInsert => 0 <= y < n && 0 <= x <= lines[y].len() && lines[y].len()
            + TAB_EXPANSION <= TEXT_LIMIT,
        InsertOpType::CharInsert(c) => SPACE <= c && c < DEL && 0 <= y < n && 0 <= x
            <= lines[y].len() && lines[y].len() < TEXT_LIMIT,
        InsertOpType::Delete => op_allowed(lines, p, BufferOpType::CharDelete),
        InsertOpType::Backspace => op_allowed(lines, p, BufferOpType::CharBackspace),
        _ => false,
    }
}

/// The lines after insert-mode operation `op` (when it is made).
pub open spec fn insert_lines(lines: Seq<Seq<u8>>, op: InsertOp) -> Seq<Seq<u8>> {
    let p = op.cursor;
    let x = p.x as int;
    let y = p.y as int;
    match op.optype {
        InsertOpType::LineBreak => broken(lines, x, y),
        InsertOpType::TabInsert => tabbed(lines, op.mode, x, y, tab_width(x) as nat),
        InsertOpType::CharInsert(c) => typed(lines, op.mode, x, y, c as u8),
        InsertOpType::Delete => deleted(lines, x, y),
        InsertOpType::Backspace => backspaced(lines, x, y),
        _ => lines,
    }
}

/// The cursor after insert-mode operation `op`.
pub open spec fn insert_cursor(lines: Seq<Seq<u8>>, op: InsertOp) -> Pos {
    let p = op.cursor;
    if !insert_allowed(lines, op) {
        p
    } else {
        match op.optype {
            InsertOpType::LineBreak => Pos { x: 0, y: (p.y + 1) as i32 },
            InsertOpType::TabInsert => Pos { x: (p.x + tab_width(p.x as int)) as i32, y: p.y },
            InsertOpType::CharInsert(_) => Pos { x: (p.x + 1) as i32, y: p.y },
            InsertOpType::Delete => delete_cursor(lines, p),
            InsertOpType::Backspace => backspace_cursor(lines, p),
            _ => p,
        }
    }
}

/// The history after insert-mode operation `op`: edits take no checkpoint.
pub open spec fn insert_history(h: History, op: InsertOp) -> History {
    if insert_allowed(h.lines, op) {
        edit_model(h, insert_lines(h.lines, op))
    } else {
        h
    }
}

/// `e` holds history `h`, and its view is the one that `update` makes from
/// cursor `c` and viewport `area`.
pub open spec fn settled_from(e: Editor, h: History, c: Pos, area: Rec) -> bool {
    &&& e.buffer.history() == h
    &&& h.lines.len() > 0 ==> e.view.cursor == clamp_cursor(h.lines, c) && e.view.filearea
        == scrolled(area, e.view.cursor)
    &&& h.lines.len() == 0 ==> e.view.cursor == c && e.view.filearea == area
}

/// How many spaces a tab may type.
pub const TAB_EXPANSION: i32 = 4;

proof fn lemma_tabbed(lines: Seq<Seq<u8>>, mode: InsertMode, x: int, y: int, k: nat)
    requires
        0 <= y < lines.len(),
        0 <= x <= lines[y].len(),
    ensures
        tabbed(lines, mode, x, y, k).len() == lines.len(),
        tabbed(lines, mode, x, y, k) == lines.update(y, tabbed(lines, mode, x, y, k)[y]),
        tabbed(lines, mode, x, y, k)[y].len() as int == match mode {
            InsertMode::Insert => (lines[y].len() + k) as int,
            InsertMode::Replace => if x + k <= lines[y].len() {
                lines[y].len() as int
            } else {
                x + k
            },
        },
    decreases k,
{
    if k > 0 {
        lemma_tabbed(lines, mode, x, y, (k - 1) as nat);
        let t = tabbed(lines, mode, x, y, (k - 1) as nat);
        let u = tabbed(lines, mode, x, y, k);
        assert(u =~= lines.update(y, u[y]));
    } else {
        assert(lines =~= lines.update(y, lines[y]));
    }
}

/// Left justified, fixed length names of the modes.
pub const MODE_COMMAND: &'static str = "Command  ";

pub const MODE_INSERT: &'static str = "Insert   ";

pub const MODE_PINSERT: &'static str = "Insert?  ";

pub const MODE_REPLACE: &'static str = "Replace  ";

pub const MODE_PREPLACE: &'static str = "Replace? ";

pub const MODE_EXIT: &'static str = "Exit     ";

/// The name of mode `m` in the footer.
pub open spec fn mode_name(m: Mode) -> &'static str {
    match m {
        Mode::Command => MODE_COMMAND,
        Mode::Insert(InsertMode::Insert) => MODE_INSERT,
        Mode::Insert(InsertMode::Replace) => MODE_REPLACE,
        Mode::PendingInsert(InsertMode::Insert) => MODE_PINSERT,
        Mode::PendingInsert(InsertMode::Replace) => MODE_PREPLACE,
        Mode::Exit => MODE_EXIT,
    }
}

impl Mode {
    /// The name shown in the footer.
    pub fn name(self) -> (r: &'static str)
        ensures
            r == mode_name(self),
    {
        match self {
            Mode::Command => MODE_COMMAND,
            Mode::Insert(InsertMode::Insert) => MODE_INSERT,
            Mode::Insert(InsertMode::Replace) => MODE_REPLACE,
            Mode::PendingInsert(InsertMode::Insert) => MODE_PINSERT,
            Mode::PendingInsert(InsertMode::Replace) => MODE_PREPLACE,
            Mode::Exit => MODE_EXIT,
        }
    }

    /// The colors of the footer.
    pub fn footer_color(self) -> (r: Colorcell)
        ensures
            r == match self {
                Mode::Command => cell(Color::BoldWhite, Color::Black),
                Mode::Insert(InsertMode::Insert) => cell(Color::BoldWhite, Color::Red),
                Mode::Insert(InsertMode::Replace) => cell(Color::BoldWhite, Color::Magenta),
                Mode::PendingInsert(InsertMode::Insert) => cell(Color::BoldWhite, Color::Red),
                Mode::PendingInsert(InsertMode::Replace) => cell(Color::BoldWhite, Color::Magenta),
                Mode::Exit => cell(Color::Magenta, Color::Magenta),
            },
    {
        let c = conf();
        match self {
            Mode::Command => c.color_mode_command,
            Mode::Insert(InsertMode::Insert) => c.color_mode_insert,
            Mode::Insert(InsertMode::Replace) => c.color_mode_replace,
            Mode::PendingInsert(InsertMode::Insert) => c.color_mode_insert,
            Mode::PendingInsert(InsertMode::Replace) => c.color_mode_replace,
            Mode::Exit => c.color_mode_exit,
        }
    }
}

/// The name of movement mode `m`, as the header shows it.
pub open spec fn movement_label(m: crate::view::MovementMode) -> &'static str {
    match m {
        crate::view::MovementMode::Chars => "Chars",
        crate::view::MovementMode::Lines => "Lines",
        crate::view::MovementMode::Blocks => "Blocks",
        crate::view::MovementMode::Words => "Words",
        crate::view::MovementMode::Digits => "Digits",
        crate::view::MovementMode::Numbers => "Numbers",
        crate::view::MovementMode::Paragraphs => "Paragraphs",
        crate::view::MovementMode::Parens => "Parens",
        crate::view::MovementMode::Brackets => "Brackets",
        crate::view::MovementMode::Braces => "Braces",
        crate::view::MovementMode::Selection => "Selection",
        crate::view::MovementMode::Pages => "Pages",
    }
}

/// The name of a movement mode, as the header shows it.
pub fn movement_name(m: crate::view::MovementMode) -> (r: &'static str)
    ensures
        r == movement_label(m),
{
    match m {
        crate::view::MovementMode::Chars => "Chars",
        crate::view::MovementMode::Lines => "Lines",
        crate::view::MovementMode::Blocks => "Blocks",
        crate::view::MovementMode::Words => "Words",
        crate::view::MovementMode::Digits => "Digits",
        crate::view::MovementMode::Numbers => "Numbers",
        crate::view::MovementMode::Paragraphs => "Paragraphs",
        crate::view::MovementMode::Parens => "Parens",
        crate::view::MovementMode::Brackets => "Brackets",
        crate::view::MovementMode::Braces => "Braces",
        crate::view::MovementMode::Selection => "Selection",
        crate::view::MovementMode::Pages => "Pages",
    }
}

/// Whether every line of `buffer` is within the coordinate limits.
pub fn buffer_within_limits(buffer: &Buffer) -> (r: bool)
    requires
        buffer.wf(),
    ensures
        r == within_limits(buffer.history().lines),
{
    let ghost lines = buffer.history().lines;
    if lines_count_over(buffer) {
        return false;
    }
    let n = buffer.nlines() as usize;
    let mut i: usize = 0;
    while i < n
        invariant
            buffer.wf(),
            lines == buffer.history().lines,
            n == lines.len(),
            n <= TEXT_LIMIT,
            i <= n,
            forall|k: int| 0 <= k < i ==> (#[trigger] lines[k]).len() <= TEXT_LIMIT,
        decreases n - i,
    {
        if buffer.line_len(i) > TEXT_LIMIT as usize {
            return false;
        }
        i = i + 1;
    }
    true
}

fn lines_count_over(buffer: &Buffer) -> (r: bool)
    requires
        buffer.wf(),
    ensures
        r == (buffer.history().lines.len() > TEXT_LIMIT),
{
    buffer.line_count() > TEXT_LIMIT as usize
}

impl Mode {
    /// What a key does in command mode (see `command_op`).
    pub fn input_to_command_op(i: Input, e: &Editor) -> (r: CommandOp)
        ensures
            r == command_op(i, e.view.cursor),
            match r {
                CommandOp::BufferOp(p, _) => cursor_in_range(p) || !cursor_in_range(e.view.cursor),
                _ => true,
            },
    {
        let c = e.view.cursor;
        match i {
            Input::Key(k) => {
                if k == 'h' {
                    CommandOp::BufferMove(MoveOp::Movement(Move::Left))
                } else if k == 'j' {
                    CommandOp::BufferMove(MoveOp::Movement(Move::Down))
                } else if k == 'k' {
                    CommandOp::BufferMove(MoveOp::Movement(Move::Up))
                } else if k == 'l' {
                    CommandOp::BufferMove(MoveOp::Movement(Move::Right))
                } else if k == ' ' {
                    CommandOp::BufferMove(MoveOp::Recenter)
                } else if k == CTRL_D {
                    CommandOp::BufferMove(MoveOp::PageDown)
                } else if k == CTRL_U {
                    CommandOp::BufferMove(MoveOp::PageUp)
                } else if k == CTRL_H {
                    CommandOp::BufferMove(MoveOp::FileStart)
                } else if k == CTRL_L {
                    CommandOp::BufferMove(MoveOp::FileEnd)
                } else if k == 'o' {
                    if c.y < TEXT_LIMIT + 2 {
                        CommandOp::BufferOp(pos(c.x, c.y + 1), BufferOpType::LineNew)
                    } else {
                        CommandOp::Noop
                    }
                } else if k == 'O' {
                    CommandOp::BufferOp(c, BufferOpType::LineNew)
                } else if k == 'q' {
                    CommandOp::BufferOp(c, BufferOpType::LineJoin)
                } else if k == ENTER {
                    CommandOp::BufferOp(c, BufferOpType::LineBreak)
                } else if k == 'd' {
                    CommandOp::BufferOp(c, BufferOpType::LineDel)
                } else if k == 'x' {
                    CommandOp::BufferOp(c, BufferOpType::CharDelete)
                } else if k == CTRL_X {
                    CommandOp::BufferOp(c, BufferOpType::CharBackspace)
                } else if k == 'u' {
                    CommandOp::BufferOp(c, BufferOpType::Undo)
                } else if k == 'r' {
                    CommandOp::BufferOp(c, BufferOpType::Redo)
                } else if k == TAB {
                    CommandOp::SwitchInsert
                } else if k == CTRL_R {
                    CommandOp::SwitchReplace
                } else if k == 's' {
                    CommandOp::Save
                } else if k == '\\' {
                    CommandOp::ClearConsole
                } else {
                    CommandOp::Noop
                }
            },
            _ => CommandOp::Noop,
        }
    }

    /// What a key does in insert mode `mode` (see `insert_op`).
    pub fn input_to_insert_op(mode: InsertMode, i: Input, e: &Editor) -> (r: InsertOp)
        ensures
            r == insert_op(mode, i, e.view.cursor),
    {
        let optype = match i {
            Input::Key(c) => {
                if c == ESC {
                    InsertOpType::SwitchCommand
                } else if c == ENTER {
                    InsertOpType::LineBreak
                } else if c == TAB {
                    InsertOpType::TabInsert
                } else if c == DEL {
                    InsertOpType::Backspace
                } else if c == BACKSPACE {
                    InsertOpType::Delete
                } else {
                    InsertOpType::CharInsert(c)
                }
            },
            Input::EscZ => InsertOpType::SwitchCommand,
            _ => InsertOpType::Noop,
        };
        InsertOp { cursor: e.view.cursor, optype, mode }
    }

    /// Handles one input in mode `m` (not `Exit`). The interrupt key exits at
    /// once and changes nothing. Command mode runs `command_op`: edits
    /// behind a checkpoint, undo, redo and moves. A pending insert takes its
    /// one checkpoint on any input and goes on as insert mode, where edits
    /// take none. The view is updated afterwards. Returns the next mode and
    /// what the caller has to do.
    pub fn process_input(m: Mode, i: Input, e: &mut Editor) -> (r: (Mode, Effect))
        requires
            old(e).wf(),
            m != Mode::Exit,
        ensures
            final(e).wf(),
            r.0 == next_mode(m, i),
            r.1 == Effect::Save <==> (m == Mode::Command && i == Input::Key('s')),
            i == Input::Key(CTRL_C) ==> *final(e) == *old(e),
            i != Input::Key(CTRL_C) ==> final(e).view_settled(),
            ({
                let h = old(e).buffer.history();
                let c = old(e).view.cursor;
                let a = old(e).view.filearea;
                &&& (i != Input::Key(CTRL_C) && i == Input::Resize && !(m is PendingInsert))
                    ==> settled_from(*final(e), h, c, a)
                &&& (i != Input::Key(CTRL_C) && i != Input::Resize && m == Mode::Command)
                    ==> settled_from(
                    *final(e),
                    command_history(h, command_op(i, c)),
                    command_cursor(h, c, command_op(i, c)),
                    command_area(a, c, command_op(i, c)),
                )
                &&& (i != Input::Key(CTRL_C) && i != Input::Resize && m is Insert) ==> settled_from(
                    *final(e),
                    insert_history(h, insert_op(m->Insert_0, i, c)),
                    insert_cursor(h.lines, insert_op(m->Insert_0, i, c)),
                    a,
                )
                &&& (i != Input::Key(CTRL_C) && m is PendingInsert) ==> settled_from(
                    *final(e),
                    insert_history(snapshot_model(h, c), insert_op(m->PendingInsert_0, i, c)),
                    insert_cursor(h.lines, insert_op(m->PendingInsert_0, i, c)),
                    a,
                )
            }),
    {
        if i == Input::Key(CTRL_C) {
            return (Mode::Exit, Effect::Nothing);
        }
        if i == Input::Resize {
            if e.console.next_entry == i32::MAX {
                e.console.clear();
            }
            e.console.log("resize !");
            match m {
                Mode::PendingInsert(_) => {},
                _ => {
                    e.view.update(&e.buffer);
                    return (m, Effect::Nothing);
                },
            }
        }
        let ghost h0 = e.buffer.history();
        let r = match m {
            Mode::Command => {
                let op = Mode::input_to_command_op(i, e);
                e.do_command(op)
            },
            Mode::Insert(s) => {
                let op = Mode::input_to_insert_op(s, i, e);
                (e.do_insert(op), Effect::Nothing)
            },
            Mode::PendingInsert(s) => {
                let c = e.view.cursor;
                e.buffer.snapshot(c);
                proof {
                    lemma_history_snapshot_edit(h0, c, h0.lines);
                }
                if 0 <= c.y && c.y < e.buffer.nlines() {
                    e.buffer.prepare_insert(c.y as usize);
                    assert(e.buffer.history() == snapshot_model(h0, c));
                }
                let op = Mode::input_to_insert_op(s, i, e);
                (e.do_insert(op), Effect::Nothing)
            },
            Mode::Exit => (Mode::Exit, Effect::Nothing),
        };
        e.view.update(&e.buffer);
        r
    }
}

/// What row `at.y` showed from column `at.x` stays where no cell of those
/// changed.
proof fn lemma_row_kept(a: Framebuffer, b: Framebuffer, at: Pos, l: Seq<u8>)
    requires
        shows_line(a, at, l),
        b.width() == a.width(),
        b.height() == a.height(),
        0 <= at.x,
        0 <= at.y < a.height(),
        forall|x: int, y: int|
            a.in_grid(x, y) && y == at.y && at.x <= x < at.x + l.len() ==> #[trigger] b.glyph(x, y)
                == a.glyph(x, y),
    ensures
        shows_line(b, at, l),
{
    assert forall|j: int| 0 <= j < l.len() && at.x + j < b.width() implies b.glyph(
        at.x + j,
        at.y as int,
    ) == #[trigger] l[j] by {
        assert(a.glyph(at.x + j, at.y as int) == l[j]);
        assert(a.in_grid(at.x + j, at.y as int));
    }
}

/// The one file, its view, its screen and the debug console.
pub struct Editor {
    pub window: Pos,
    pub mainscreen: Rec,
    pub footer: Rec,
    pub buffer: Buffer,
    pub view: FileView,
    pub screen: Screen,
    pub console: Debugconsole,
}

impl Editor {
    pub open spec fn wf(&self) -> bool {
        &&& self.buffer.wf()
        &&& self.view.wf()
        &&& self.console.wf()
        &&& history_ok(self.buffer.history())
        &&& cursor_in_range(self.view.cursor)
    }

    /// The view's cursor is on the text and inside the viewport.
    pub open spec fn view_settled(&self) -> bool {
        self.buffer.history().lines.len() > 0 ==> {
            &&& cursor_on_text(self.buffer.history().lines, self.view.cursor)
            &&& self.view.filearea.covers(self.view.cursor)
        }
    }

    /// An editor on the bytes `text` of the file `filepath`, for a terminal
    /// of `window` cells: `None` when a line count or a line length is
    /// beyond the coordinate limits.
    pub fn mk_editor(filepath: String, text: Vec<u8>, window: Pos) -> (r: Option<Editor>)
        requires
            crate::draw::LINENO_LEN < window.x <= i32::MAX / 2,
            2 < window.y <= i32::MAX / 2,
        ensures
            match r {
                Some(e) => {
                    &&& e.wf()
                    &&& e.window == window
                    &&& e.buffer.history().lines == crate::text::split_lines(text@)
                    &&& e.view.cursor == (Pos { x: 0, y: 0 })
                    &&& e.screen.laid_out()
                    &&& e.screen.window == (Rec {
                        min: Pos { x: 0, y: 0 },
                        max: Pos { x: window.x, y: (window.y - 1) as i32 },
                    })
                    &&& e.footer == (Rec {
                        min: Pos { x: 0, y: (window.y - 1) as i32 },
                        max: window,
                    })
                },
                None => !within_limits(crate::text::split_lines(text@)),
            },
    {
        let buffer = Buffer::from_text(text);
        if !buffer_within_limits(&buffer) {
            return None;
        }
        let (mainscreen, footer) = window.rec().vsplit(window.y - 1);
        let screen = Screen::mk_screen(mainscreen);
        let (_, filearea) = mainscreen.vsplit(1);
        let (_, textarea) = filearea.hsplit(crate::draw::LINENO_LEN);
        let view = FileView::mk_fileview(filepath, textarea.size(), conf().relative_lineno);
        let console = Debugconsole::mk_console(48, 16);
        let e = Editor { window, mainscreen, footer, buffer, view, screen, console };
        proof {
            let h = e.buffer.history();
            assert(h.undo.len() == 0 && h.redo.len() == 0);
        }
        Some(e)
    }

    /// Paints the file, its header and the footer for `mode` into
    /// `framebuffer`, renders the frame, then blanks the cells for the next.
    pub fn refresh_screen(&self, framebuffer: &mut Framebuffer, mode: Mode)
        requires
            self.wf(),
            old(framebuffer).wf(),
            self.screen.laid_out(),
            self.screen.window.min == (Pos { x: 0, y: 0 }),
            self.screen.window.max.x == self.window.x,
            self.screen.window.max.y == self.window.y - 1,
            self.footer == (Rec {
                min: Pos { x: 0, y: (self.window.y - 1) as i32 },
                max: self.window,
            }),
            old(framebuffer).width() == self.window.x,
            old(framebuffer).height() == self.window.y,
            2 < self.window.y <= i32::MAX / 2,
            crate::draw::LINENO_LEN < self.window.x <= i32::MAX / 2,
        ensures
            final(framebuffer).wf(),
            final(framebuffer).width() == old(framebuffer).width(),
            final(framebuffer).height() == old(framebuffer).height(),
            final(framebuffer).is_blank(),
            exists|g: Framebuffer|
                #![trigger g.frame_bytes()]
                g.wf() && final(framebuffer).output() == g.frame_bytes() && g.width() == self.window.x
                    && shows_line(g, Pos { x: 1, y: (self.window.y - 1) as i32 }, mode_name(mode).spec_bytes())
                    && exists|hdr: Seq<u8>|
                    #![trigger self.screen.screen_shows_except(g, hdr, self.buffer.history().lines, self.view.filearea.min, visible_rows(self.buffer.history().lines, self.view.filearea.min, self.screen.textarea.max.y - self.screen.textarea.min.y), console_area(g.width(), g.height(), self.console))]
                    self.screen.screen_shows_except(
                        g,
                        hdr,
                        self.buffer.history().lines,
                        self.view.filearea.min,
                        visible_rows(
                            self.buffer.history().lines,
                            self.view.filearea.min,
                            self.screen.textarea.max.y - self.screen.textarea.min.y,
                        ),
                        console_area(g.width(), g.height(), self.console),
                    ),
    {
        let mut header: Vec<u8> = Vec::new();
        let path = self.view.filepath.as_str().as_bytes();
        let mut k: usize = 0;
        while k < path.len()
            invariant
                k <= path@.len(),
            decreases path@.len() - k,
        {
            header.push(path[k]);
            k = k + 1;
        }
        header.push(if self.buffer.is_dirty() { 43u8 } else { 32u8 });
        header.push(32u8);
        let name = movement_name(self.view.movement_mode).as_bytes();
        let mut k: usize = 0;
        while k < name.len()
            invariant
                k <= name@.len(),
            decreases name@.len() - k,
        {
            header.push(name[k]);
            k = k + 1;
        }
        let c = self.view.cursor;
        let cursor = pos(if c.x < 0 { 0 } else { c.x }, if c.y < 0 { 0 } else { c.y });
        let drawinfo = Drawinfo {
            header: header.as_slice(),
            buffer: &self.buffer,
            buffer_offset: self.view.filearea.min,
            cursor,
            draw: Draw::All,
            relative_lineno: self.view.relative_lineno,
            is_active: self.view.is_active,
        };
        self.screen.put_text(framebuffer, &drawinfo);
        let ghost lines = self.buffer.history().lines;
        let ghost offset = self.view.filearea.min;
        let ghost th = self.screen.textarea.max.y - self.screen.textarea.min.y;
        let ghost rows = visible_rows(lines, offset, th);
        let ghost hdr = header@;
        let ghost carea = console_area(framebuffer.width(), framebuffer.height(), self.console);
        proof {
            assert(self.screen.screen_shows(*framebuffer, hdr, lines, offset, rows));
            self.screen.lemma_screen_shows_except(*framebuffer, hdr, lines, offset, rows, carea);
        }
        let name = mode.name().as_bytes();
        let at = pos(self.footer.min.x + 1, self.footer.min.y);
        let ghost before_footer = *framebuffer;
        framebuffer.put_line(at, name);
        proof {
            self.screen.lemma_screen_except_kept(before_footer, *framebuffer, hdr, lines, offset, rows, carea);
        }
        proof {
            reveal_strlit("Command  ");
            reveal_strlit("Insert   ");
            reveal_strlit("Insert?  ");
            reveal_strlit("Replace  ");
            reveal_strlit("Replace? ");
            reveal_strlit("Exit     ");
            let nm = mode_name(mode);
            assert(nm@.len() == 9);
            assert(vstd::string::is_ascii(nm));
            vstd::string::is_ascii_spec_bytes(nm);
            assert(name@.len() == 9);
            let fb = *framebuffer;
            assert forall|j: int| 0 <= j < name@.len() && at.x + j < fb.width() implies fb.glyph(
                at.x + j,
                at.y as int,
            ) == #[trigger] name@[j] by {
                assert(fb.in_grid(at.x + j, at.y as int));
            }
        }
        if self.footer.min.x + 10 <= self.window.x {
            let ghost prev = *framebuffer;
            framebuffer.put_line(
                pos(self.footer.min.x + 10, self.footer.min.y),
                "FOOTER FOOTER FOOTER FOOTER FOOTER FOOTER FOOTER FOOTER FOOTER FOOTER".as_bytes(),
            );
            proof {
                lemma_row_kept(prev, *framebuffer, at, name@);
                self.screen.lemma_screen_except_kept(prev, *framebuffer, hdr, lines, offset, rows, carea);
            }
        }
        let fc = mode.footer_color();
        let ghost prev = *framebuffer;
        framebuffer.put_color(self.footer, fc);
        proof {
            lemma_row_kept(prev, *framebuffer, at, name@);
            self.screen.lemma_screen_except_kept(prev, *framebuffer, hdr, lines, offset, rows, carea);
        }
        let ghost prev = *framebuffer;
        framebuffer.dump_console(&self.console);
        proof {
            lemma_row_kept(prev, *framebuffer, at, name@);
            self.screen.lemma_screen_except_kept(prev, *framebuffer, hdr, lines, offset, rows, carea);
        }
        let ghost g = *framebuffer;
        framebuffer.render();
        framebuffer.clear();
        assert(g.wf() && framebuffer.output() == g.frame_bytes());
    }

    /// Moves the cursor one step, staying within the coordinate range.
    pub fn mv_cursor(&mut self, m: Move)
        requires
            old(self).wf(),
        ensures
            final(self).wf(),
            final(self).buffer == old(self).buffer,
            final(self).view.filearea == old(self).view.filearea,
            final(self).view.cursor == step_cursor(old(self).view.cursor, m),
            final(self).console == old(self).console,
    {
        let c = self.view.cursor;
        let next = match m {
            Move::Left => if c.x > -1 { pos(c.x - 1, c.y) } else { c },
            Move::Right => if c.x < TEXT_LIMIT + 1 { pos(c.x + 1, c.y) } else { c },
            Move::Up => if c.y > -1 { pos(c.x, c.y - 1) } else { c },
            Move::Down => if c.y < TEXT_LIMIT + 1 { pos(c.x, c.y + 1) } else { c },
            _ => c,
        };
        self.view.cursor = next;
    }

    /// Runs buffer operation `op` at `p`: a checkpoint, then the edit, for
    /// the edits; undo and redo go back and forth between checkpoints. An
    /// edit that would leave the coordinate limits is not made.
    pub fn do_buffer_op(&mut self, p: Pos, op: BufferOpType)
        requires
            old(self).wf(),
            cursor_in_range(p),
        ensures
            final(self).wf(),
            final(self).view.filearea == old(self).view.filearea,
            final(self).buffer.history() == buffer_op_history(old(self).buffer.history(), p, op),
            final(self).view.cursor == buffer_op_cursor(
                old(self).buffer.history(),
                old(self).view.cursor,
                p,
                op,
            ),
    {
        let ghost h0 = self.buffer.history();
        let ghost lines = h0.lines;
        let n = self.buffer.nlines();
        let r = match op {
            BufferOpType::LineDel => {
                if n > 0 && 0 <= p.y && p.y < n {
                    self.buffer.snapshot(p);
                    let r = self.buffer.line_del(p);
                    proof {
                        lemma_limits_remove(lines, p.y as int);
                    }
                    r
                } else {
                    Opresult::Noop
                }
            },
            BufferOpType::LineNew => {
                if 0 <= p.y && p.y <= n && n < TEXT_LIMIT {
                    self.buffer.snapshot(p);
                    let r = self.buffer.line_new(p);
                    proof {
                        lemma_limits_insert(lines, p.y as int, Seq::empty());
                    }
                    r
                } else {
                    Opresult::Noop
                }
            },
            BufferOpType::LineJoin => {
                if 0 <= p.y && p.y + 1 < n && self.buffer.line_len(p.y as usize) + self.buffer.line_len(
                    p.y as usize + 1,
                ) <= TEXT_LIMIT as usize {
                    self.buffer.snapshot(p);
                    let r = self.buffer.line_join(p);
                    proof {
                        lemma_limits_joined(lines, p.y as int);
                    }
                    r
                } else {
                    Opresult::Noop
                }
            },
            BufferOpType::LineBreak => {
                if 0 <= p.y && p.y < n && 0 <= p.x && p.x as usize <= self.buffer.line_len(
                    p.y as usize,
                ) && n < TEXT_LIMIT {
                    self.buffer.snapshot(p);
                    let r = self.buffer.line_break(p);
                    proof {
                        let l = lines[p.y as int];
                        lemma_limits_update(lines, p.y as int, l.subrange(0, p.x as int));
                        lemma_limits_insert(
                            lines.update(p.y as int, l.subrange(0, p.x as int)),
                            p.y + 1,
                            l.subrange(p.x as int, l.len() as int),
                        );
                    }
                    r
                } else {
                    Opresult::Noop
                }
            },
            BufferOpType::CharDelete => {
                if 0 <= p.y && p.y < n && 0 <= p.x && self.del_allowed(p) {
                    self.buffer.snapshot(p);
                    let r = self.buffer.del(p);
                    proof {
                        lemma_limits_deleted(lines, p.x as int, p.y as int);
                    }
                    r
                } else {
                    Opresult::Noop
                }
            },
            BufferOpType::CharBackspace => {
                if 0 <= p.y && p.y < n && 0 <= p.x && !(p.x == 0 && p.y == 0) && self.backspace_allowed(p) {
                    self.buffer.snapshot(p);
                    let r = self.buffer.backspace(p);
                    proof {
                        if !(p.x == 0 && p.y == 0) {
                            lemma_limits_backspaced(lines, p.x as int, p.y as int);
                        }
                    }
                    r
                } else {
                    Opresult::Noop
                }
            },
            BufferOpType::Undo => self.buffer.undo(p),
            BufferOpType::Redo => self.buffer.redo(p),
        };
        proof {
            let h1 = self.buffer.history();
            if op == BufferOpType::Undo || op == BufferOpType::Redo {
                lemma_history_undo_redo(h0, p);
                if h0.undo.len() > 0 {
                    assert(state_ok(h0.undo[h0.undo.len() - 1]));
                }
                if h0.redo.len() > 0 {
                    assert(state_ok(h0.redo[h0.redo.len() - 1]));
                }
            } else if h1 != h0 {
                lemma_history_snapshot_edit(h0, p, h1.lines);
                assert(h1.undo =~= snapshot_model(h0, p).undo);
                assert(snapshot_model(h0, p).undo.drop_last() =~= h0.undo);
            }
        }
        self.update_buffer(r);
    }

    /// A forward delete at `p` keeps the coordinate limits and has a byte or
    /// an empty line to delete.
    fn del_allowed(&self, p: Pos) -> (r: bool)
        requires
            self.wf(),
            0 <= p.y < self.buffer.history().lines.len(),
            0 <= p.x,
        ensures
            r == ({
                let lines = self.buffer.history().lines;
                &&& lines[p.y as int].len() == 0 || p.x < lines[p.y as int].len()
                &&& p.y + 1 >= lines.len() || lines[p.y as int].len() + lines[p.y + 1].len()
                    <= TEXT_LIMIT
            }),
    {
        let ghost lines = self.buffer.history().lines;
        let y = p.y as usize;
        let len = self.buffer.line_len(y);
        if !(len == 0 || (p.x as usize) < len) {
            return false;
        }
        if y + 1 >= self.buffer.nlines() as usize {
            return true;
        }
        assert(lines[p.y + 1].len() <= TEXT_LIMIT);
        len + self.buffer.line_len(y + 1) <= TEXT_LIMIT as usize
    }

    /// A backspace at `p` keeps the coordinate limits.
    fn backspace_allowed(&self, p: Pos) -> (r: bool)
        requires
            self.wf(),
            0 <= p.y < self.buffer.history().lines.len(),
            0 <= p.x,
        ensures
            r == ({
                let lines = self.buffer.history().lines;
                &&& p.x <= lines[p.y as int].len()
                &&& p.y == 0 || lines[p.y - 1].len() + lines[p.y as int].len() <= TEXT_LIMIT
            }),
    {
        let ghost lines = self.buffer.history().lines;
        let y = p.y as usize;
        let len = self.buffer.line_len(y);
        if p.x as usize > len {
            return false;
        }
        if y == 0 {
            return true;
        }
        assert(lines[p.y - 1].len() <= TEXT_LIMIT);
        self.buffer.line_len(y - 1) + len <= TEXT_LIMIT as usize
    }

    /// Moves the cursor or the viewport (see `move_cursor`, `move_area`).
    pub fn do_buffer_move(&mut self, op: MoveOp)
        requires
            old(self).wf(),
        ensures
            final(self).wf(),
            final(self).buffer == old(self).buffer,
            final(self).console == old(self).console,
            final(self).view.cursor == move_cursor(
                op,
                old(self).view.cursor,
                old(self).buffer.history().lines.len() as int,
            ),
            final(self).view.filearea == move_area(op, old(self).view.filearea, old(self).view.cursor),
    {
        match op {
            MoveOp::Movement(m) => self.mv_cursor(m),
            MoveOp::Recenter => self.view.recenter(),
            MoveOp::PageUp => self.view.go_page_up(),
            MoveOp::PageDown => self.view.go_page_down(&self.buffer),
            MoveOp::FileStart => self.view.go_file_start(),
            MoveOp::FileEnd => self.view.go_file_end(&self.buffer),
        }
    }

    /// Runs a command-mode operation; returns the next mode and what the
    /// caller has to do.
    pub fn do_command(&mut self, op: CommandOp) -> (r: (Mode, Effect))
        requires
            old(self).wf(),
            match op {
                CommandOp::BufferOp(p, _) => cursor_in_range(p),
                _ => true,
            },
        ensures
            final(self).wf(),
            r.0 == match op {
                CommandOp::SwitchInsert => Mode::PendingInsert(InsertMode::Insert),
                CommandOp::SwitchReplace => Mode::PendingInsert(InsertMode::Replace),
                _ => Mode::Command,
            },
            r.1 == if op == CommandOp::Save {
                Effect::Save
            } else {
                Effect::Nothing
            },
            final(self).buffer.history() == command_history(old(self).buffer.history(), op),
            final(self).view.cursor == command_cursor(
                old(self).buffer.history(),
                old(self).view.cursor,
                op,
            ),
            final(self).view.filearea == command_area(
                old(self).view.filearea,
                old(self).view.cursor,
                op,
            ),
            op == CommandOp::ClearConsole ==> final(self).console.next_entry == 0,
    {
        match op {
            CommandOp::BufferMove(m) => self.do_buffer_move(m),
            CommandOp::BufferOp(p, o) => self.do_buffer_op(p, o),
            CommandOp::Save => {
                return (Mode::Command, Effect::Save);
            },
            CommandOp::ClearConsole => self.console.clear(),
            CommandOp::SwitchInsert => {
                return (Mode::PendingInsert(InsertMode::Insert), Effect::Nothing);
            },
            CommandOp::SwitchReplace => {
                return (Mode::PendingInsert(InsertMode::Replace), Effect::Nothing);
            },
            CommandOp::Noop => {},
        }
        (Mode::Command, Effect::Nothing)
    }

    /// Types `count` spaces from `p`, in `mode`.
    fn type_spaces(&mut self, mode: InsertMode, p: Pos, count: i32)
        requires
            old(self).wf(),
            1 <= count <= TAB_EXPANSION,
            0 <= p.y < old(self).buffer.history().lines.len(),
            0 <= p.x <= old(self).buffer.history().lines[p.y as int].len(),
            old(self).buffer.history().lines[p.y as int].len() + TAB_EXPANSION <= TEXT_LIMIT,
        ensures
            final(self).wf(),
            final(self).view == old(self).view,
            final(self).buffer.history() == edit_model(
                old(self).buffer.history(),
                tabbed(old(self).buffer.history().lines, mode, p.x as int, p.y as int, count as nat),
            ),
    {
        let ghost h0 = self.buffer.history();
        let ghost lines = h0.lines;
        let ghost x = p.x as int;
        let ghost y = p.y as int;
        let mut k: i32 = 0;
        while k < count
            invariant
                self.wf(),
                self.view == old(self).view,
                h0 == old(self).buffer.history(),
                history_ok(h0),
                lines == h0.lines,
                0 <= k <= count <= TAB_EXPANSION,
                0 <= y < lines.len(),
                x == p.x,
                y == p.y,
                0 <= x <= lines[y].len(),
                lines[y].len() + TAB_EXPANSION <= TEXT_LIMIT,
                k == 0 ==> self.buffer.history() == h0,
                k > 0 ==> self.buffer.history() == edit_model(h0, tabbed(lines, mode, x, y, k as nat)),
            decreases count - k,
        {
            proof {
                lemma_tabbed(lines, mode, x, y, k as nat);
                lemma_tabbed(lines, mode, x, y, (k + 1) as nat);
                assert(self.buffer.history().lines == tabbed(lines, mode, x, y, k as nat));
            }
            self.buffer.char_insert(mode, pos(p.x + k, p.y), ' ');
            proof {
                let t1 = tabbed(lines, mode, x, y, (k + 1) as nat);
                lemma_limits_update(lines, y, t1[y]);
                lemma_history_snapshot_edit(h0, p, t1);
                assert(SPACE_BYTE == (' ' as u8));
            }
            k = k + 1;
        }
    }

    /// Runs an insert-mode operation (see `insert_history`,
    /// `insert_cursor`); returns the next mode.
    pub fn do_insert(&mut self, op: InsertOp) -> (r: Mode)
        requires
            old(self).wf(),
            cursor_in_range(op.cursor),
            op.cursor == old(self).view.cursor,
        ensures
            final(self).wf(),
            r == if op.optype == InsertOpType::SwitchCommand {
                Mode::Command
            } else {
                Mode::Insert(op.mode)
            },
            final(self).buffer.history() == insert_history(old(self).buffer.history(), op),
            final(self).view.cursor == insert_cursor(old(self).buffer.history().lines, op),
            final(self).view.filearea == old(self).view.filearea,
    {
        let ghost h0 = self.buffer.history();
        let ghost lines = h0.lines;
        let p = op.cursor;
        let mut next_mode = Mode::Insert(op.mode);
        let n = self.buffer.nlines();
        let r = match op.optype {
            InsertOpType::LineBreak => {
                if 0 <= p.y && p.y < n && 0 <= p.x && p.x as usize <= self.buffer.line_len(
                    p.y as usize,
                ) && n < TEXT_LIMIT {
                    let r = self.buffer.line_break(p);
                    proof {
                        let l = lines[p.y as int];
                        lemma_limits_update(lines, p.y as int, l.subrange(0, p.x as int));
                        lemma_limits_insert(
                            lines.update(p.y as int, l.subrange(0, p.x as int)),
                            p.y + 1,
                            l.subrange(p.x as int, l.len() as int),
                        );
                        lemma_history_snapshot_edit(h0, p, self.buffer.history().lines);
                    }
                    r
                } else {
                    Opresult::Noop
                }
            },
            InsertOpType::TabInsert => {
                if 0 <= p.y && p.y < n && 0 <= p.x && p.x as usize <= self.buffer.line_len(
                    p.y as usize,
                ) && self.buffer.line_len(p.y as usize) + TAB_EXPANSION as usize
                    <= TEXT_LIMIT as usize {
                    let count = TAB_EXPANSION - p.x % TAB_EXPANSION;
                    self.type_spaces(op.mode, p, count);
                    Opresult::Change(pos(p.x + count, p.y))
                } else {
                    Opresult::Noop
                }
            },
            InsertOpType::CharInsert(c) => {
                if is_printable(c) && 0 <= p.y && p.y < n && 0 <= p.x && p.x as usize
                    <= self.buffer.line_len(p.y as usize) && self.buffer.line_len(p.y as usize)
                    < TEXT_LIMIT as usize {
                    let r = self.buffer.char_insert(op.mode, p, c);
                    proof {
                        let l = lines[p.y as int];
                        let b = c as u8;
                        match op.mode {
                            InsertMode::Insert => lemma_limits_update(
                                lines,
                                p.y as int,
                                l.insert(p.x as int, b),
                            ),
                            InsertMode::Replace => {
                                if p.x == l.len() {
                                    lemma_limits_update(lines, p.y as int, l.push(b));
                                } else {
                                    lemma_limits_update(lines, p.y as int, l.update(p.x as int, b));
                                }
                            },
                        }
                        lemma_history_snapshot_edit(h0, p, self.buffer.history().lines);
                    }
                    r
                } else {
                    Opresult::Noop
                }
            },
            InsertOpType::Delete => {
                if 0 <= p.y && p.y < n && 0 <= p.x && self.del_allowed(p) {
                    let r = self.buffer.del(p);
                    proof {
                        lemma_limits_deleted(lines, p.x as int, p.y as int);
                        lemma_history_snapshot_edit(h0, p, self.buffer.history().lines);
                    }
                    r
                } else {
                    Opresult::Noop
                }
            },
            InsertOpType::Backspace => {
                if 0 <= p.y && p.y < n && 0 <= p.x && !(p.x == 0 && p.y == 0) && self.backspace_allowed(p) {
                    let r = self.buffer.backspace(p);
                    proof {
                        lemma_limits_backspaced(lines, p.x as int, p.y as int);
                        lemma_history_snapshot_edit(h0, p, self.buffer.history().lines);
                    }
                    r
                } else {
                    Opresult::Noop
                }
            },
            InsertOpType::SwitchCommand => {
                next_mode = Mode::Command;
                Opresult::Noop
            },
            InsertOpType::Noop => Opresult::Noop,
        };
        self.update_buffer(r);
        next_mode
    }

    fn update_buffer(&mut self, r: Opresult)
        requires
            old(self).wf(),
            match r {
                Opresult::Noop => true,
                Opresult::Cursor(p) => cursor_in_range(p),
                Opresult::Change(p) => cursor_in_range(p),
            },
        ensures
            final(self).wf(),
            final(self).buffer.history() == old(self).buffer.history(),
            final(self).view.filearea == old(self).view.filearea,
            match r {
                Opresult::Noop => final(self).view.cursor == old(self).view.cursor,
                Opresult::Cursor(p) => final(self).view.cursor == p,
                Opresult::Change(p) => final(self).view.cursor == p,
            },
    {
        match r {
            Opresult::Cursor(p) => {
                self.view.cursor = p;
            },
            Opresult::Change(p) => {
                self.view.cursor = p;
                self.buffer.ops_do();
            },
            Opresult::Noop => {},
        }
    }
}

} // verus!

//! Line storage with an append-only byte store, an operation log and
//! multi-level undo/redo.

use vstd::prelude::*;
use crate::geometry::{Pos, pos};

verus! {

pub const NEWLINE: u8 = 10;

pub const CARRIAGE_RETURN: u8 = 13;

/// A byte range `[start, stop)` of the text store: one physical line.
#[derive(Debug, Clone, Copy, PartialEq, Eq, Structural)]
pub struct Range {
    pub start: usize,
    pub stop: usize,
}

fn range(start: usize, stop: usize) -> (r: Range)
    requires
        start <= stop,
    ensures
        r == (Range { start, stop }),
{
    Range { start, stop }
}

impl Range {
    pub fn len(self) -> (r: usize)
        requires
            self.start <= self.stop,
        ensures
            r == self.stop - self.start,
    {
        self.stop - self.start
    }

    /// Splits the range `n` bytes after its start.
    pub fn cut(self, n: usize) -> (r: (Range, Range))
        requires
            self.start <= self.stop,
            n <= self.stop - self.start,
        ensures
            r.0 == (Range { start: self.start, stop: (self.start + n) as usize }),
            r.1 == (Range { start: (self.start + n) as usize, stop: self.stop }),
    {
        let pivot = self.start + n;
        (range(self.start, pivot), range(pivot, self.stop))
    }
}

/// Append-only bytes plus the extents (physical lines) cut out of them.
pub struct TextStore {
    text: Vec<u8>,
    extents: Vec<Range>,
}

impl TextStore {
    pub closed spec fn wf(&self) -> bool {
        forall|i: int|
            0 <= i < self.extents@.len() ==> (#[trigger] self.extents@[i]).start
                <= self.extents@[i].stop <= self.text@.len()
    }

    pub closed spec fn num_extents(&self) -> nat {
        self.extents@.len()
    }

    /// The bytes of extent `k`.
    pub closed spec fn content(&self, k: int) -> Seq<u8> {
        self.text@.subrange(self.extents@[k].start as int, self.extents@[k].stop as int)
    }

    /// `other` keeps every byte and every extent of `self` in place.
    pub closed spec fn grown_to(&self, other: TextStore) -> bool {
        &&& self.text@.len() <= other.text@.len()
        &&& self.text@ == other.text@.subrange(0, self.text@.len() as int)
        &&& self.extents@.len() <= other.extents@.len()
        &&& self.extents@ == other.extents@.subrange(0, self.extents@.len() as int)
    }

    proof fn lemma_grown_content(&self, other: TextStore, k: int)
        requires
            self.wf(),
            self.grown_to(other),
            0 <= k < self.extents@.len(),
        ensures
            other.content(k) == self.content(k),
    {
        let e = self.extents@[k];
        assert(other.extents@[k] == e);
        assert(e.start <= e.stop <= self.text@.len());
        assert(other.content(k) =~= self.content(k));
    }

    fn extent_len(&self, k: usize) -> (r: usize)
        requires
            self.wf(),
            k < self.num_extents(),
        ensures
            r == self.content(k as int).len(),
    {
        let e = self.extents[k];
        e.len()
    }

    fn byte_at(&self, k: usize, i: usize) -> (r: u8)
        requires
            self.wf(),
            k < self.num_extents(),
            i < self.content(k as int).len(),
        ensures
            r == self.content(k as int)[i as int],
    {
        let e = self.extents[k];
        self.text[e.start + i]
    }

    /// Registers a new extent for `r`.
    fn push_extent(&mut self, r: Range) -> (k: usize)
        requires
            old(self).wf(),
            r.start <= r.stop <= old(self).text@.len(),
        ensures
            final(self).wf(),
            old(self).grown_to(*final(self)),
            final(self).text@ == old(self).text@,
            final(self).num_extents() == old(self).num_extents() + 1,
            k == old(self).num_extents(),
            final(self).extents@[k as int] == r,
            final(self).content(k as int) == old(self).text@.subrange(r.start as int, r.stop as int),
    {
        let k = self.extents.len();
        self.extents.push(r);
        assert(self.extents@.subrange(0, k as int) =~= old(self).extents@);
        assert(self.text@.subrange(0, self.text@.len() as int) =~= self.text@);
        k
    }

    /// A new empty extent at the end of the text.
    fn new_empty_line(&mut self) -> (k: usize)
        requires
            old(self).wf(),
        ensures
            final(self).wf(),
            old(self).grown_to(*final(self)),
            final(self).num_extents() == old(self).num_extents() + 1,
            k == old(self).num_extents(),
            final(self).content(k as int) == Seq::<u8>::empty(),
    {
        let n = self.text.len();
        let k = self.push_extent(range(n, n));
        assert(self.content(k as int) =~= Seq::<u8>::empty());
        k
    }

    /// Copies the bytes of extent `k` to the end of the text, as a new extent.
    fn append_line_copy(&mut self, k: usize) -> (r: usize)
        requires
            old(self).wf(),
            k < old(self).num_extents(),
        ensures
            final(self).wf(),
            old(self).grown_to(*final(self)),
            final(self).num_extents() == old(self).num_extents() + 1,
            r == old(self).num_extents(),
            final(self).content(r as int) == old(self).content(k as int),
            final(self).extents@[r as int].start == old(self).text@.len(),
            final(self).extents@[r as int].stop == final(self).text@.len(),
    {
        let start = self.text.len();
        self.append_bytes_of(k);
        let ghost mid = *self;
        let stop = self.text.len();
        let r = self.push_extent(range(start, stop));
        assert(self.content(r as int) =~= old(self).content(k as int));
        proof {
            assert(old(self).grown_to(mid));
            assert(self.text@ == mid.text@);
            assert(self.extents@.subrange(0, old(self).extents@.len() as int) =~= old(self).extents@);
        }
        r
    }

    /// Copies the bytes of extent `k1` then those of `k2` to the end of the
    /// text, as a new extent.
    fn append_concat(&mut self, k1: usize, k2: usize) -> (r: usize)
        requires
            old(self).wf(),
            k1 < old(self).num_extents(),
            k2 < old(self).num_extents(),
        ensures
            final(self).wf(),
            old(self).grown_to(*final(self)),
            final(self).num_extents() == old(self).num_extents() + 1,
            r == old(self).num_extents(),
            final(self).content(r as int) == old(self).content(k1 as int) + old(self).content(
                k2 as int,
            ),
    {
        let start = self.text.len();
        self.append_bytes_of(k1);
        let ghost mid = *self;
        proof {
            old(self).lemma_grown_content(mid, k2 as int);
        }
        self.append_bytes_of(k2);
        let ghost mid2 = *self;
        let stop = self.text.len();
        let r = self.push_extent(range(start, stop));
        assert(self.content(r as int) =~= old(self).content(k1 as int) + old(self).content(
            k2 as int,
        ));
        proof {
            assert(self.text@.subrange(0, old(self).text@.len() as int) =~= old(self).text@);
            assert(self.extents@.subrange(0, old(self).extents@.len() as int) =~= old(self).extents@);
        }
        r
    }

    /// Appends a copy of the bytes of extent `k` and returns the new extent.
    fn append_bytes_of(&mut self, k: usize)
        requires
            old(self).wf(),
            k < old(self).num_extents(),
        ensures
            final(self).wf(),
            old(self).grown_to(*final(self)),
            final(self).num_extents() == old(self).num_extents(),
            final(self).text@ == old(self).text@ + old(self).content(k as int),
    {
        let e = self.extents[k];
        let mut i = e.start;
        while i < e.stop
            invariant
                old(self).wf(),
                e == old(self).extents@[k as int],
                e.start <= i <= e.stop <= old(self).text@.len(),
                self.extents@ == old(self).extents@,
                self.text@ == old(self).text@ + old(self).text@.subrange(e.start as int, i as int),
            decreases e.stop - i,
        {
            let c = self.text[i];
            self.text.push(c);
            assert(self.text@ =~= old(self).text@ + old(self).text@.subrange(e.start as int, i + 1));
            i = i + 1;
        }
        assert(self.text@.subrange(0, old(self).text@.len() as int) =~= old(self).text@);
        assert(self.extents@.subrange(0, self.extents@.len() as int) =~= self.extents@);
        assert forall|j: int| 0 <= j < self.extents@.len() implies #[trigger] self.extents@[j].start
            <= self.extents@[j].stop <= self.text@.len() by {
            assert(old(self).extents@[j].start <= old(self).extents@[j].stop);
        }
    }
}


/// One line-level operation of the log. `extent` is the extent inserted
/// (`Insert`), the one removed (`Delete`, once applied) or the one that the
/// line does not hold at the moment (`Replace`): applying or reverting a
/// `Replace` swaps it with the line's entry.
#[derive(Debug, Clone, Copy)]
pub struct Op {
    pub line: usize,
    pub extent: usize,
    pub kind: OpKind,
}

#[derive(Debug, Clone, Copy, PartialEq, Eq, Structural)]
pub enum OpKind {
    Delete,
    Insert,
    Replace,
}

/// `op`, applied, took the line table from `before` to `after`.
pub open spec fn op_applied(op: Op, before: Seq<usize>, after: Seq<usize>) -> bool {
    match op.kind {
        OpKind::Insert => op.line <= before.len() && after == before.insert(op.line as int, op.extent),
        OpKind::Delete => op.line < before.len() && op.extent == before[op.line as int] && after
            == before.remove(op.line as int),
        OpKind::Replace => op.line < before.len() && op.extent == before[op.line as int]
            && after.len() == before.len() && after == before.update(
            op.line as int,
            after[op.line as int],
        ),
    }
}

/// `op`, once applied, will take the line table from `before` to `after`.
pub open spec fn op_unapplied(op: Op, before: Seq<usize>, after: Seq<usize>) -> bool {
    match op.kind {
        OpKind::Insert => op.line <= before.len() && after == before.insert(op.line as int, op.extent),
        OpKind::Delete => op.line < before.len() && after == before.remove(op.line as int),
        OpKind::Replace => op.line < before.len() && after == before.update(
            op.line as int,
            op.extent,
        ),
    }
}

/// The operation log: `ops[..executed]` are applied to the line table,
/// `ops[executed..pending]` are queued, what follows is kept for redo.
pub struct EditLog {
    ops: Vec<Op>,
    executed: usize,
    pending: usize,
}

/// A checkpoint taken before a mutating command.
#[derive(Debug, Clone, Copy)]
pub struct Snapshot {
    pub text_len: usize,
    pub op_cursor: usize,
    pub dirty: bool,
    pub cursor: Pos,
}

/// What an editing primitive asks of the view.
#[derive(Debug, Clone, Copy, PartialEq, Eq, Structural)]
pub enum Opresult {
    Noop,
    Cursor(Pos),
    Change(Pos),
}

#[derive(Debug, Clone, Copy, PartialEq, Eq, Structural)]
pub enum InsertMode {
    Insert,
    Replace,
}

/// The content, cursor and dirty flag recorded by a checkpoint.
pub struct EditState {
    pub lines: Seq<Seq<u8>>,
    pub cursor: Pos,
    pub dirty: bool,
}

/// The abstract state of a buffer: its lines, its dirty flag, the states
/// that undo goes back to (last first) and those that redo goes forward to
/// (last first).
pub struct History {
    pub lines: Seq<Seq<u8>>,
    pub dirty: bool,
    pub undo: Seq<EditState>,
    pub redo: Seq<EditState>,
}

/// A checkpoint: the current state is recorded with `cursor`.
pub open spec fn snapshot_model(h: History, cursor: Pos) -> History {
    History {
        lines: h.lines,
        dirty: true,
        undo: h.undo.push(EditState { lines: h.lines, cursor, dirty: h.dirty }),
        redo: Seq::empty(),
    }
}

/// An edit: the lines become `lines` and redo is no longer possible.
pub open spec fn edit_model(h: History, lines: Seq<Seq<u8>>) -> History {
    History { lines, dirty: h.dirty, undo: h.undo, redo: Seq::empty() }
}

/// Undo, `cursor` being where the cursor stands when it is asked for.
pub open spec fn undo_model(h: History, cursor: Pos) -> History {
    if h.undo.len() == 0 {
        h
    } else {
        History {
            lines: h.undo.last().lines,
            dirty: h.undo.last().dirty,
            undo: h.undo.drop_last(),
            redo: h.redo.push(EditState { lines: h.lines, cursor, dirty: h.dirty }),
        }
    }
}

/// Redo, `cursor` being where the cursor stands when it is asked for.
pub open spec fn redo_model(h: History, cursor: Pos) -> History {
    if h.redo.len() == 0 {
        h
    } else {
        History {
            lines: h.redo.last().lines,
            dirty: h.redo.last().dirty,
            undo: h.undo.push(EditState { lines: h.lines, cursor, dirty: h.dirty }),
            redo: h.redo.drop_last(),
        }
    }
}

/// Where the cursor goes on undo (it stays where it is when there is nothing to undo).
pub open spec fn undo_cursor(h: History, cursor: Pos) -> Pos {
    if h.undo.len() == 0 {
        cursor
    } else {
        h.undo.last().cursor
    }
}

/// Where the cursor goes on redo (it stays where it is when there is nothing to redo).
pub open spec fn redo_cursor(h: History, cursor: Pos) -> Pos {
    if h.redo.len() == 0 {
        cursor
    } else {
        h.redo.last().cursor
    }
}

/// Mutating commands: each is a checkpoint with the cursor of the pair, then
/// an edit that leaves the lines of the pair.
pub open spec fn run_commands(h: History, cmds: Seq<(Pos, Seq<Seq<u8>>)>) -> History
    decreases cmds.len(),
{
    if cmds.len() == 0 {
        h
    } else {
        edit_model(
            snapshot_model(run_commands(h, cmds.drop_last()), cmds.last().0),
            cmds.last().1,
        )
    }
}

/// `n` undos in a row, each handed the cursor that the previous one returned.
pub open spec fn undo_times(h: History, n: nat, cursor: Pos) -> (History, Pos)
    decreases n,
{
    if n == 0 {
        (h, cursor)
    } else {
        undo_times(undo_model(h, cursor), (n - 1) as nat, undo_cursor(h, cursor))
    }
}

/// `n` redos in a row, each handed the cursor that the previous one returned.
pub open spec fn redo_times(h: History, n: nat, cursor: Pos) -> (History, Pos)
    decreases n,
{
    if n == 0 {
        (h, cursor)
    } else {
        redo_times(redo_model(h, cursor), (n - 1) as nat, redo_cursor(h, cursor))
    }
}

pub open spec fn with_redo(h: History, redo: Seq<EditState>) -> History {
    History { lines: h.lines, dirty: h.dirty, undo: h.undo, redo }
}

/// The states that undoing `cmds` one by one leaves for redo, the first
/// undone first; `cursor` is where the cursor stood after the last command.
pub open spec fn redo_trail(cmds: Seq<(Pos, Seq<Seq<u8>>)>, cursor: Pos) -> Seq<EditState>
    decreases cmds.len(),
{
    if cmds.len() == 0 {
        Seq::empty()
    } else {
        seq![EditState { lines: cmds.last().1, cursor, dirty: true }] + redo_trail(
            cmds.drop_last(),
            cmds.last().0,
        )
    }
}

proof fn lemma_undo_commands(
    h: History,
    cmds: Seq<(Pos, Seq<Seq<u8>>)>,
    redo: Seq<EditState>,
    cursor: Pos,
)
    requires
        cmds.len() > 0,
    ensures
        undo_times(with_redo(run_commands(h, cmds), redo), cmds.len(), cursor) == (
            with_redo(h, redo + redo_trail(cmds, cursor)),
            cmds[0].0,
        ),
    decreases cmds.len(),
{
    let prev = cmds.drop_last();
    let g = with_redo(run_commands(h, cmds), redo);
    let pushed = redo.push(EditState { lines: cmds.last().1, cursor, dirty: true });
    assert(g.undo.drop_last() =~= run_commands(h, prev).undo);
    assert(undo_model(g, cursor) == with_redo(run_commands(h, prev), pushed));
    assert(undo_cursor(g, cursor) == cmds.last().0);
    assert(undo_times(g, cmds.len(), cursor) == undo_times(
        undo_model(g, cursor),
        prev.len(),
        cmds.last().0,
    ));
    if prev.len() == 0 {
        assert(cmds[0] == cmds.last());
        assert(redo_trail(prev, cmds.last().0) =~= Seq::<EditState>::empty());
        assert(redo + redo_trail(cmds, cursor) =~= pushed);
        assert(run_commands(h, prev) == h);
        assert(with_redo(h, pushed) == with_redo(h, redo + redo_trail(cmds, cursor)));
    } else {
        lemma_undo_commands(h, prev, pushed, cmds.last().0);
        assert(pushed + redo_trail(prev, cmds.last().0) =~= redo + redo_trail(cmds, cursor));
        assert(prev[0] == cmds[0]);
    }
}

proof fn lemma_redo_last_step(h: History, n: nat, cursor: Pos)
    requires
        n > 0,
    ensures
        redo_times(h, n, cursor) == ({
            let (g, c) = redo_times(h, (n - 1) as nat, cursor);
            (redo_model(g, c), redo_cursor(g, c))
        }),
    decreases n,
{
    let h1 = redo_model(h, cursor);
    let c1 = redo_cursor(h, cursor);
    assert(redo_times(h, n, cursor) == redo_times(h1, (n - 1) as nat, c1));
    if n > 1 {
        lemma_redo_last_step(h1, (n - 1) as nat, c1);
        assert(redo_times(h, (n - 1) as nat, cursor) == redo_times(h1, (n - 2) as nat, c1));
    } else {
        assert(redo_times(h1, 0, c1) == (h1, c1));
        assert(redo_times(h, 0, cursor) == (h, cursor));
    }
}

proof fn lemma_redo_commands(
    h: History,
    cmds: Seq<(Pos, Seq<Seq<u8>>)>,
    redo: Seq<EditState>,
    cursor: Pos,
)
    requires
        cmds.len() > 0,
    ensures
        redo_times(with_redo(h, redo + redo_trail(cmds, cursor)), cmds.len(), cmds[0].0) == (
            with_redo(run_commands(h, cmds), redo),
            cursor,
        ),
    decreases cmds.len(),
{
    let prev = cmds.drop_last();
    let pushed = redo.push(EditState { lines: cmds.last().1, cursor, dirty: true });
    lemma_redo_last_step(with_redo(h, redo + redo_trail(cmds, cursor)), cmds.len(), cmds[0].0);
    if prev.len() == 0 {
        assert(redo_trail(prev, cmds.last().0) =~= Seq::<EditState>::empty());
        assert(redo + redo_trail(cmds, cursor) =~= pushed);
        assert(run_commands(h, prev) == h);
        assert(cmds[0] == cmds.last());
        assert(redo_model(with_redo(h, pushed), cmds[0].0).undo =~= run_commands(h, cmds).undo);
        assert(pushed.drop_last() =~= redo);
        assert(redo_model(with_redo(h, pushed), cmds[0].0) == with_redo(run_commands(h, cmds), redo));
    } else {
        lemma_redo_commands(h, prev, pushed, cmds.last().0);
        assert(pushed + redo_trail(prev, cmds.last().0) =~= redo + redo_trail(cmds, cursor));
        assert(prev[0] == cmds[0]);
        let g = with_redo(run_commands(h, prev), pushed);
        assert(redo_model(g, cmds.last().0).undo =~= run_commands(h, cmds).undo);
        assert(pushed.drop_last() =~= redo);
        assert(redo_model(g, cmds.last().0) == with_redo(run_commands(h, cmds), redo));
    }
}

/// Undo and redo are inverse: after any non-empty sequence of mutating
/// commands, undoing as many times brings back the lines, the dirty flag,
/// the undo stack and the cursor from before the first command; redoing as
/// many times then brings back the state after the last command, cursor
/// included.
pub proof fn lemma_undo_redo_inverse(h: History, cmds: Seq<(Pos, Seq<Seq<u8>>)>, cursor: Pos)
    requires
        cmds.len() > 0,
    ensures
        ({
            let (undone, c) = undo_times(run_commands(h, cmds), cmds.len(), cursor);
            &&& undone.lines == h.lines
            &&& undone.dirty == h.dirty
            &&& undone.undo == h.undo
            &&& c == cmds[0].0
            &&& redo_times(undone, cmds.len(), c) == (run_commands(h, cmds), cursor)
        }),
{
    let empty = Seq::<EditState>::empty();
    assert(run_commands(h, cmds).redo == empty);
    assert(with_redo(run_commands(h, cmds), empty) == run_commands(h, cmds));
    lemma_undo_commands(h, cmds, empty, cursor);
    assert(empty + redo_trail(cmds, cursor) =~= redo_trail(cmds, cursor));
    lemma_redo_commands(h, cmds, empty, cursor);
}


/// A line without the carriage return that may end it.
pub open spec fn strip_cr(l: Seq<u8>) -> Seq<u8> {
    if l.len() > 0 && l.last() == CARRIAGE_RETURN {
        l.drop_last()
    } else {
        l
    }
}

/// The lines of `t` from the one that starts at `a`, the scan having
/// reached `b` without meeting a newline.
pub open spec fn split_scan(t: Seq<u8>, a: int, b: int) -> Seq<Seq<u8>>
    decreases t.len() - b,
{
    if b >= t.len() {
        seq![strip_cr(t.subrange(a, t.len() as int))]
    } else if t[b] == NEWLINE {
        seq![strip_cr(t.subrange(a, b))] + split_scan(t, b + 1, b + 1)
    } else {
        split_scan(t, a, b + 1)
    }
}

/// The lines of `t`: the pieces between newlines, each without a final
/// carriage return. A text ending in a newline ends in an empty line.
pub open spec fn split_lines(t: Seq<u8>) -> Seq<Seq<u8>> {
    split_scan(t, 0, 0)
}

/// The bytes of each line of the line table `ind`.
pub closed spec fn lines_of(store: TextStore, ind: Seq<usize>) -> Seq<Seq<u8>> {
    Seq::new(ind.len(), |i: int| store.content(ind[i] as int))
}

/// Every entry of `ind` names one of `n` extents.
pub closed spec fn valid_table(ind: Seq<usize>, n: nat) -> bool {
    forall|l: int| 0 <= l < ind.len() ==> (#[trigger] ind[l]) < n
}

proof fn lemma_lines_of_grown(a: TextStore, b: TextStore, ind: Seq<usize>)
    requires
        a.wf(),
        a.grown_to(b),
        valid_table(ind, a.num_extents()),
    ensures
        lines_of(b, ind) == lines_of(a, ind),
{
    assert forall|i: int| 0 <= i < ind.len() implies lines_of(b, ind)[i] == lines_of(a, ind)[i] by {
        a.lemma_grown_content(b, ind[i] as int);
    }
    assert(lines_of(b, ind) =~= lines_of(a, ind));
}

proof fn lemma_lines_of_insert(store: TextStore, ind: Seq<usize>, y: int, k: usize)
    requires
        0 <= y <= ind.len(),
    ensures
        lines_of(store, ind.insert(y, k)) == lines_of(store, ind).insert(y, store.content(k as int)),
{
    assert(lines_of(store, ind.insert(y, k)) =~= lines_of(store, ind).insert(
        y,
        store.content(k as int),
    ));
}

proof fn lemma_lines_of_remove(store: TextStore, ind: Seq<usize>, y: int)
    requires
        0 <= y < ind.len(),
    ensures
        lines_of(store, ind.remove(y)) == lines_of(store, ind).remove(y),
{
    assert(lines_of(store, ind.remove(y)) =~= lines_of(store, ind).remove(y));
}

proof fn lemma_lines_of_update(store: TextStore, ind: Seq<usize>, y: int, k: usize)
    requires
        0 <= y < ind.len(),
    ensures
        lines_of(store, ind.update(y, k)) == lines_of(store, ind).update(y, store.content(k as int)),
{
    assert(lines_of(store, ind.update(y, k)) =~= lines_of(store, ind).update(
        y,
        store.content(k as int),
    ));
}

/// Lines `y` and `y + 1` of `lines` made one.
pub open spec fn joined(lines: Seq<Seq<u8>>, y: int) -> Seq<Seq<u8>> {
    lines.update(y, lines[y] + lines[y + 1]).remove(y + 1)
}

/// Line `y` of `lines` split before column `x`.
pub open spec fn broken(lines: Seq<Seq<u8>>, x: int, y: int) -> Seq<Seq<u8>> {
    lines.update(y, lines[y].subrange(0, x)).insert(y + 1, lines[y].subrange(x, lines[y].len() as int))
}

/// Line `y` of `lines` after typing byte `b` at column `x` in `mode`.
pub open spec fn typed(lines: Seq<Seq<u8>>, mode: InsertMode, x: int, y: int, b: u8) -> Seq<Seq<u8>> {
    match mode {
        InsertMode::Insert => lines.update(y, lines[y].insert(x, b)),
        InsertMode::Replace => if x == lines[y].len() {
            lines.update(y, lines[y].push(b))
        } else {
            lines.update(y, lines[y].update(x, b))
        },
    }
}

proof fn lemma_prefix_content(s0: TextStore, s1: TextStore, j: int, bound: int)
    requires
        s0.wf(),
        0 <= j < s0.extents@.len(),
        j < s1.extents@.len(),
        s1.extents@[j] == s0.extents@[j],
        s0.extents@[j].stop <= bound <= s0.text@.len(),
        bound <= s1.text@.len(),
        s1.text@.subrange(0, bound) == s0.text@.subrange(0, bound),
    ensures
        s1.content(j) == s0.content(j),
{
    let e = s0.extents@[j];
    assert(e.start <= e.stop);
    assert forall|i: int| 0 <= i < e.stop - e.start implies s1.content(j)[i] == s0.content(j)[i] by {
        assert(s1.text@.subrange(0, bound)[e.start + i] == s0.text@.subrange(0, bound)[e.start + i]);
        assert(s1.text@[e.start + i] == s1.text@.subrange(0, bound)[e.start + i]);
        assert(s0.text@[e.start + i] == s0.text@.subrange(0, bound)[e.start + i]);
    }
    assert(s1.content(j) =~= s0.content(j));
}

/// The lines after a forward delete at column `x` of line `y`: an empty
/// line goes; the last byte of the last line just goes; at the last byte of
/// a line followed by an empty one, the empty line goes; at the last byte of
/// another line, the byte goes and the next line is joined; elsewhere the
/// byte goes.
pub open spec fn deleted(lines: Seq<Seq<u8>>, x: int, y: int) -> Seq<Seq<u8>> {
    let l = lines[y];
    if l.len() == 0 {
        lines.remove(y)
    } else if y == lines.len() - 1 || x != l.len() - 1 {
        lines.update(y, l.remove(x))
    } else if lines[y + 1].len() == 0 {
        lines.remove(y + 1)
    } else {
        joined(lines.update(y, l.remove(x)), y)
    }
}

/// Where the cursor goes after a forward delete at `cursor`: one column left
/// when the last byte of the last line went, else nowhere.
pub open spec fn delete_cursor(lines: Seq<Seq<u8>>, cursor: Pos) -> Pos {
    let l = lines[cursor.y as int];
    if l.len() > 0 && cursor.y == lines.len() - 1 && cursor.x == l.len() - 1 {
        Pos { x: (cursor.x - 1) as i32, y: cursor.y }
    } else {
        cursor
    }
}

/// The lines after a backspace at column `x` of line `y` (not both zero):
/// an empty line goes; at column 0 an empty previous line goes, a non-empty
/// one is joined with this one; elsewhere the byte before the cursor goes.
pub open spec fn backspaced(lines: Seq<Seq<u8>>, x: int, y: int) -> Seq<Seq<u8>> {
    if lines[y].len() == 0 {
        lines.remove(y)
    } else if x == 0 && lines[y - 1].len() == 0 {
        lines.remove(y - 1)
    } else if x == 0 {
        joined(lines, y - 1)
    } else {
        lines.update(y, lines[y].remove(x - 1))
    }
}

/// Where the cursor goes after a backspace at `cursor` (not the origin):
/// one column left, or to the end of the previous line from column 0.
pub open spec fn backspace_cursor(lines: Seq<Seq<u8>>, cursor: Pos) -> Pos {
    if cursor.x > 0 {
        Pos { x: (cursor.x - 1) as i32, y: cursor.y }
    } else {
        Pos { x: lines[cursor.y - 1].len() as i32, y: (cursor.y - 1) as i32 }
    }
}

/// Breaking a line and joining it back gives the line back, wherever the
/// break was made.
pub proof fn lemma_break_join_round_trip(lines: Seq<Seq<u8>>, x: int, y: int)
    requires
        0 <= y < lines.len(),
        0 <= x <= lines[y].len(),
    ensures
        joined(broken(lines, x, y), y) == lines,
{
    let l = lines[y];
    assert(l.subrange(0, x) + l.subrange(x, l.len() as int) =~= l);
    assert(joined(broken(lines, x, y), y) =~= lines);
}

/// Delete at the edges: the sole byte of the sole line leaves one empty
/// line; the last byte of the last line goes without any join; backspace at
/// column 0 of a line after the first joins it to the previous line, the
/// cursor going to where that line ended.
pub proof fn lemma_delete_edges(lines: Seq<Seq<u8>>, y: int)
    requires
        0 <= y < lines.len() <= i32::MAX,
    ensures
        lines.len() == 1 && lines[0].len() == 1 ==> deleted(lines, 0, 0) == (seq![Seq::<u8>::empty()]),
        y == lines.len() - 1 && lines[y].len() > 0 ==> deleted(lines, lines[y].len() - 1, y)
            == lines.update(y, lines[y].drop_last()),
        y > 0 && lines[y].len() > 0 && lines[y - 1].len() <= i32::MAX ==> backspaced(lines, 0, y)
            == joined(lines, y - 1) && backspace_cursor(lines, (Pos { x: 0, y: y as i32 })) == (Pos {
                x: lines[y - 1].len() as i32,
                y: (y - 1) as i32,
            }),
{
    if lines.len() == 1 && lines[0].len() == 1 {
        assert(lines[0].remove(0) =~= Seq::<u8>::empty());
        assert(deleted(lines, 0, 0) =~= seq![Seq::<u8>::empty()]);
    }
    if y == lines.len() - 1 && lines[y].len() > 0 {
        assert(lines[y].remove(lines[y].len() - 1) =~= lines[y].drop_last());
    }
    if y > 0 && lines[y].len() > 0 && lines[y - 1].len() == 0 {
        assert(lines[y - 1] + lines[y] =~= lines[y]);
        assert(lines.remove(y - 1) =~= joined(lines, y - 1));
    }
}

/// The lines that a save writes: all of them but a final empty line, which
/// only stands for the end of the last line (loading a text that ends in a
/// newline makes it).
pub open spec fn saved_lines(lines: Seq<Seq<u8>>) -> Seq<Seq<u8>> {
    if lines.len() > 0 && lines.last().len() == 0 {
        lines.drop_last()
    } else {
        lines
    }
}

/// `lines` written out, each followed by a newline.
pub open spec fn terminated(lines: Seq<Seq<u8>>) -> Seq<u8>
    decreases lines.len(),
{
    if lines.len() == 0 {
        Seq::empty()
    } else {
        terminated(lines.drop_last()) + lines.last() + seq![NEWLINE]
    }
}

/// The content of a file: lines held as a table of extents of a text store,
/// a log of line operations, and checkpoints for undo and redo.
pub struct Buffer {
    store: TextStore,
    indirection: Vec<usize>,
    dirty: bool,
    log: EditLog,
    checkpoints: Vec<Snapshot>,
    undone: Vec<Snapshot>,
    last_cloned: Option<usize>,
    /// The line table before each operation of the log (and after the last).
    tables: Ghost<Seq<Seq<usize>>>,
}

impl Buffer {
    closed spec fn log_ok(&self) -> bool {
        let ops = self.log.ops@;
        let t = self.tables@;
        let ex = self.log.executed as int;
        &&& self.log.executed <= self.log.pending <= ops.len()
        &&& t.len() == ops.len() + 1
        &&& self.indirection@ == t[ex]
        &&& forall|i: int| 0 <= i < ex ==> op_applied(#[trigger] ops[i], t[i], t[i + 1])
        &&& forall|i: int| ex <= i < ops.len() ==> op_unapplied(#[trigger] ops[i], t[i], t[i + 1])
        &&& forall|i: int|
            0 <= i < t.len() ==> valid_table(#[trigger] t[i], self.store.num_extents())
    }

    closed spec fn stacks_ok(&self) -> bool {
        let cps = self.checkpoints@;
        let und = self.undone@;
        let ex = self.log.executed;
        &&& forall|i: int| 0 <= i < cps.len() ==> (#[trigger] cps[i]).op_cursor <= ex
        &&& forall|i: int, j: int|
            #![trigger cps[i], cps[j]]
            0 <= i <= j < cps.len() ==> cps[i].op_cursor <= cps[j].op_cursor
        &&& forall|i: int|
            0 <= i < und.len() ==> ex <= (#[trigger] und[i]).op_cursor <= self.log.ops@.len()
        &&& forall|i: int, j: int|
            #![trigger und[i], und[j]]
            0 <= i <= j < und.len() ==> und[j].op_cursor <= und[i].op_cursor
    }

    /// The extent that the last clone made may be edited in place: it is
    /// the newest one, it ends the text, no other extent reaches into it, no
    /// checkpoint sees it and the line table holds it at most once.
    closed spec fn cloned_ok(&self) -> bool {
        match self.last_cloned {
            None => true,
            Some(k) => {
                let ex = self.store.extents@;
                let t = self.tables@;
                let cps = self.checkpoints@;
                &&& k + 1 == ex.len()
                &&& ex[k as int].stop == self.store.text@.len()
                &&& forall|j: int| 0 <= j < k ==> (#[trigger] ex[j]).stop <= ex[k as int].start
                &&& forall|i: int, l: int|
                    0 <= i < cps.len() && 0 <= l < t[cps[i].op_cursor as int].len() ==> #[trigger] t[cps[i].op_cursor as int][l] != k
                &&& self.undone@.len() == 0
                &&& forall|l1: int, l2: int|
                    0 <= l1 < self.indirection@.len() && 0 <= l2 < self.indirection@.len()
                        && #[trigger] self.indirection@[l1] == k && #[trigger] self.indirection@[l2] == k
                        ==> l1 == l2
            },
        }
    }

    closed spec fn inv(&self) -> bool {
        &&& self.store.wf()
        &&& self.log_ok()
        &&& self.stacks_ok()
        &&& self.cloned_ok()
    }

    /// The buffer is consistent and no operation is queued.
    pub closed spec fn wf(&self) -> bool {
        &&& self.inv()
        &&& self.log.executed == self.log.pending
    }

    /// The bytes of each line.
    pub closed spec fn lines(&self) -> Seq<Seq<u8>> {
        lines_of(self.store, self.indirection@)
    }

    closed spec fn state_at(&self, s: Snapshot) -> EditState {
        EditState {
            lines: lines_of(self.store, self.tables@[s.op_cursor as int]),
            cursor: s.cursor,
            dirty: s.dirty,
        }
    }

    /// Lines, dirty flag and the states that undo and redo lead to.
    pub closed spec fn history(&self) -> History {
        History {
            lines: self.lines(),
            dirty: self.dirty,
            undo: self.checkpoints@.map_values(|s: Snapshot| self.state_at(s)),
            redo: self.undone@.map_values(|s: Snapshot| self.state_at(s)),
        }
    }

    /// Applies the queued operations.
    fn apply_pending(&mut self)
        requires
            old(self).inv(),
            old(self).last_cloned.is_none(),
            forall|i: int|
                0 <= i < old(self).undone@.len() ==> old(self).log.pending <= (
                #[trigger] old(self).undone@[i]).op_cursor,
        ensures
            final(self).wf(),
            final(self).indirection@ == old(self).tables@[old(self).log.pending as int],
            final(self).log.executed == old(self).log.pending,
            final(self).log.pending == old(self).log.pending,
            final(self).log.ops@.len() == old(self).log.ops@.len(),
            final(self).tables == old(self).tables,
            final(self).store == old(self).store,
            final(self).checkpoints == old(self).checkpoints,
            final(self).undone == old(self).undone,
            final(self).last_cloned == old(self).last_cloned,
            final(self).dirty == old(self).dirty,
    {
        while self.log.executed < self.log.pending
            invariant
                self.inv(),
                self.last_cloned.is_none(),
                forall|i: int|
                    0 <= i < self.undone@.len() ==> self.log.pending <= (
                    #[trigger] self.undone@[i]).op_cursor,
                self.log.pending == old(self).log.pending,
                self.log.ops@.len() == old(self).log.ops@.len(),
                self.tables == old(self).tables,
                self.store == old(self).store,
                self.checkpoints == old(self).checkpoints,
                self.undone == old(self).undone,
                self.dirty == old(self).dirty,
            decreases self.log.pending - self.log.executed,
        {
            let i = self.log.executed;
            let op = self.log.ops[i];
            let ghost t = self.tables@;
            assert(op_unapplied(self.log.ops@[i as int], t[i as int], t[i + 1]));
            match op.kind {
                OpKind::Insert => {
                    self.indirection.insert(op.line, op.extent);
                },
                OpKind::Delete => {
                    let k = self.indirection.remove(op.line);
                    self.log.ops[i] = Op { line: op.line, extent: k, kind: op.kind };
                },
                OpKind::Replace => {
                    let k = self.indirection[op.line];
                    self.indirection[op.line] = op.extent;
                    self.log.ops[i] = Op { line: op.line, extent: k, kind: op.kind };
                },
            }
            self.log.executed = i + 1;
            assert(self.indirection@ =~= t[i + 1]);
            assert(op_applied(self.log.ops@[i as int], t[i as int], t[i + 1]));
        }
    }

    /// Reverts the applied operations back to position `target` of the log.
    fn revert_to(&mut self, target: usize)
        requires
            old(self).wf(),
            old(self).last_cloned.is_none(),
            target <= old(self).log.executed,
            forall|i: int|
                0 <= i < old(self).checkpoints@.len() ==> (#[trigger] old(self).checkpoints@[i]).op_cursor
                    <= target,
        ensures
            final(self).indirection@ == old(self).tables@[target as int],
            final(self).inv(),
            final(self).log.executed == target,
            final(self).log.pending == target,
            final(self).log.ops@.len() == old(self).log.ops@.len(),
            final(self).tables == old(self).tables,
            final(self).store == old(self).store,
            final(self).last_cloned == old(self).last_cloned,
            final(self).dirty == old(self).dirty,
            final(self).checkpoints == old(self).checkpoints,
            final(self).undone == old(self).undone,
    {
        let ghost ex0 = self.log.executed;
        self.log.pending = target;
        while self.log.executed > target
            invariant
                self.store.wf(),
                self.log.pending == target,
                target <= self.log.executed <= ex0,
                ex0 <= self.log.ops@.len(),
                self.log.ops@.len() == old(self).log.ops@.len(),
                self.tables == old(self).tables,
                self.store == old(self).store,
                self.last_cloned == old(self).last_cloned,
                self.dirty == old(self).dirty,
                self.checkpoints == old(self).checkpoints,
                self.undone == old(self).undone,
                ({
                    let ops = self.log.ops@;
                    let t = self.tables@;
                    let ex = self.log.executed as int;
                    &&& t.len() == ops.len() + 1
                    &&& self.indirection@ == t[ex]
                    &&& forall|i: int| 0 <= i < ex ==> op_applied(#[trigger] ops[i], t[i], t[i + 1])
                    &&& forall|i: int|
                        ex <= i < ops.len() ==> op_unapplied(#[trigger] ops[i], t[i], t[i + 1])
                    &&& forall|i: int|
                        0 <= i < t.len() ==> valid_table(#[trigger] t[i], self.store.num_extents())
                }),
                old(self).stacks_ok(),
                old(self).log.executed == ex0,
            decreases self.log.executed,
        {
            let i = self.log.executed - 1;
            let op = self.log.ops[i];
            let ghost t = self.tables@;
            assert(op_applied(self.log.ops@[i as int], t[i as int], t[i + 1]));
            match op.kind {
                OpKind::Insert => {
                    self.indirection.remove(op.line);
                },
                OpKind::Delete => {
                    self.indirection.insert(op.line, op.extent);
                },
                OpKind::Replace => {
                    let k = self.indirection[op.line];
                    self.indirection[op.line] = op.extent;
                    self.log.ops[i] = Op { line: op.line, extent: k, kind: op.kind };
                },
            }
            self.log.executed = i;
            assert(self.indirection@ =~= t[i as int]);
            assert(op_unapplied(self.log.ops@[i as int], t[i as int], t[i + 1]));
        }
        assert(self.stacks_ok());
    }

    /// Applies the queued operations.
    pub fn ops_do(&mut self)
        requires
            old(self).wf(),
        ensures
            final(self).wf(),
            final(self).history() == old(self).history(),
    {
        if self.log.executed < self.log.pending && self.last_cloned.is_none() {
            self.apply_pending();
        }
    }

    proof fn lemma_current_valid(&self)
        requires
            self.inv(),
        ensures
            valid_table(self.indirection@, self.store.num_extents()),
            self.lines().len() == self.indirection@.len(),
            forall|l: int|
                0 <= l < self.indirection@.len() ==> #[trigger] self.lines()[l] == self.store.content(
                    self.indirection@[l] as int,
                ),
    {
        let ex = self.log.executed as int;
        assert(valid_table(self.tables@[ex], self.store.num_extents()));
    }

    /// Records a checkpoint: undo comes back to the present state, with `cursor`.
    pub fn snapshot(&mut self, cursor: Pos)
        requires
            old(self).wf(),
        ensures
            final(self).wf(),
            final(self).history() == snapshot_model(old(self).history(), cursor),
    {
        let s = Snapshot {
            text_len: self.store.text.len(),
            op_cursor: self.log.executed,
            dirty: self.dirty,
            cursor,
        };
        self.checkpoints.push(s);
        self.undone.clear();
        self.last_cloned = None;
        self.dirty = true;
        proof {
            let h0 = old(self).history();
            assert(self.history().undo =~= h0.undo.push(
                EditState { lines: h0.lines, cursor, dirty: h0.dirty },
            ));
            assert(self.history().redo =~= Seq::<EditState>::empty());
        }
    }

    /// Goes back to the last checkpoint; `cursor` is where the cursor stands
    /// now, which redo will bring back.
    pub fn undo(&mut self, cursor: Pos) -> (r: Opresult)
        requires
            old(self).wf(),
        ensures
            final(self).wf(),
            final(self).history() == undo_model(old(self).history(), cursor),
            r == if old(self).history().undo.len() == 0 {
                Opresult::Noop
            } else {
                Opresult::Change(old(self).history().undo.last().cursor)
            },
    {
        if self.checkpoints.len() == 0 {
            return Opresult::Noop;
        }
        let ghost h0 = self.history();
        let s = self.checkpoints.pop().unwrap();
        let after = Snapshot {
            text_len: self.store.text.len(),
            op_cursor: self.log.executed,
            dirty: self.dirty,
            cursor,
        };
        self.last_cloned = None;
        assert(self.wf());
        self.revert_to(s.op_cursor);
        self.undone.push(after);
        self.dirty = s.dirty;
        proof {
            assert(self.history().undo =~= h0.undo.drop_last());
            assert(self.history().redo =~= h0.redo.push(
                EditState { lines: h0.lines, cursor, dirty: h0.dirty },
            ));
        }
        Opresult::Change(s.cursor)
    }

    /// Goes forward to the state that the last undo left; `cursor` is where
    /// the cursor stands now, which undo will bring back.
    pub fn redo(&mut self, cursor: Pos) -> (r: Opresult)
        requires
            old(self).wf(),
        ensures
            final(self).wf(),
            final(self).history() == redo_model(old(self).history(), cursor),
            r == if old(self).history().redo.len() == 0 {
                Opresult::Noop
            } else {
                Opresult::Change(old(self).history().redo.last().cursor)
            },
    {
        if self.undone.len() == 0 {
            return Opresult::Noop;
        }
        let ghost h0 = self.history();
        let r = self.undone.pop().unwrap();
        let before = Snapshot {
            text_len: self.store.text.len(),
            op_cursor: self.log.executed,
            dirty: self.dirty,
            cursor,
        };
        self.last_cloned = None;
        self.checkpoints.push(before);
        self.log.pending = r.op_cursor;
        assert(self.stacks_ok());
        self.apply_pending();
        self.dirty = r.dirty;
        proof {
            assert(self.history().undo =~= h0.undo.push(
                EditState { lines: h0.lines, cursor, dirty: h0.dirty },
            ));
            assert(self.history().redo =~= h0.redo.drop_last());
        }
        Opresult::Change(r.cursor)
    }

    pub fn nlines(&self) -> (r: i32)
        requires
            self.wf(),
            self.history().lines.len() <= i32::MAX,
        ensures
            r == self.history().lines.len(),
    {
        proof {
            self.lemma_current_valid();
        }
        self.indirection.len() as i32
    }

    /// Whether the content changed since it was loaded or saved.
    pub fn is_dirty(&self) -> (r: bool)
        ensures
            r == self.history().dirty,
    {
        self.dirty
    }

    pub fn line_count(&self) -> (r: usize)
        requires
            self.wf(),
        ensures
            r == self.history().lines.len(),
    {
        proof {
            self.lemma_current_valid();
        }
        self.indirection.len()
    }

    pub fn line_last(&self) -> (r: usize)
        requires
            self.wf(),
            self.history().lines.len() > 0,
        ensures
            r == self.history().lines.len() - 1,
    {
        proof {
            self.lemma_current_valid();
        }
        self.indirection.len() - 1
    }

    pub fn line_len(&self, lineno: usize) -> (r: usize)
        requires
            self.wf(),
            lineno < self.history().lines.len(),
        ensures
            r == self.history().lines[lineno as int].len(),
    {
        proof {
            self.lemma_current_valid();
        }
        self.store.extent_len(self.indirection[lineno])
    }

    pub fn char_at(&self, lineno: usize, colno: usize) -> (r: u8)
        requires
            self.wf(),
            lineno < self.history().lines.len(),
            colno < self.history().lines[lineno as int].len(),
        ensures
            r == self.history().lines[lineno as int][colno as int],
    {
        proof {
            self.lemma_current_valid();
        }
        self.store.byte_at(self.indirection[lineno], colno)
    }

    /// The bytes of line `offset.y` from column `offset.x` on (none when the
    /// line is shorter).
    pub fn line_get_slice(&self, offset: Pos) -> (r: &[u8])
        requires
            self.wf(),
            0 <= offset.y < self.history().lines.len(),
            0 <= offset.x,
        ensures
            r@ == ({
                let l = self.history().lines[offset.y as int];
                if offset.x <= l.len() {
                    l.subrange(offset.x as int, l.len() as int)
                } else {
                    Seq::empty()
                }
            }),
    {
        proof {
            self.lemma_current_valid();
        }
        let k = self.indirection[offset.y as usize];
        let e = self.store.extents[k];
        let x = offset.x as usize;
        let start = if x <= e.stop - e.start {
            e.start + x
        } else {
            e.stop
        };
        let all = self.store.text.as_slice();
        let r = &all[start..e.stop];
        proof {
            let l = self.history().lines[offset.y as int];
            assert(l == self.store.content(k as int));
            if x <= e.stop - e.start {
                assert(r@ =~= l.subrange(offset.x as int, l.len() as int));
            } else {
                assert(r@ =~= Seq::<u8>::empty());
            }
        }
        r
    }

    /// A buffer holding the lines of `text`.
    pub fn from_text(text: Vec<u8>) -> (b: Buffer)
        ensures
            b.wf(),
            b.history() == (History {
                lines: split_lines(text@),
                dirty: false,
                undo: Seq::empty(),
                redo: Seq::empty(),
            }),
    {
        let mut extents: Vec<Range> = Vec::new();
        let mut ind: Vec<usize> = Vec::new();
        let n = text.len();
        let mut a: usize = 0;
        let mut b: usize = 0;
        while b < n
            invariant
                a <= b <= n,
                n == text@.len(),
                extents@.len() == ind@.len(),
                forall|i: int| 0 <= i < ind@.len() ==> #[trigger] ind@[i] == i,
                forall|i: int|
                    0 <= i < extents@.len() ==> (#[trigger] extents@[i]).start <= extents@[i].stop
                        <= n,
                Seq::new(
                    extents@.len(),
                    |i: int| text@.subrange(extents@[i].start as int, extents@[i].stop as int),
                ) + split_scan(text@, a as int, b as int) == split_lines(text@),
            decreases n - b,
        {
            let ghost a0 = a;
            if text[b] == NEWLINE {
                let stop = if b > a && text[b - 1] == CARRIAGE_RETURN {
                    b - 1
                } else {
                    b
                };
                let ghost prev = Seq::new(
                    extents@.len(),
                    |i: int| text@.subrange(extents@[i].start as int, extents@[i].stop as int),
                );
                assert(strip_cr(text@.subrange(a as int, b as int)) =~= text@.subrange(
                    a as int,
                    stop as int,
                ));
                let k = ind.len();
                extents.push(range(a, stop));
                ind.push(k);
                a = b + 1;
                let ghost next = Seq::new(
                    extents@.len(),
                    |i: int| text@.subrange(extents@[i].start as int, extents@[i].stop as int),
                );
                assert(next =~= prev.push(text@.subrange(extents@[k as int].start as int, stop as int)));
                let ghost rest = split_scan(text@, (b + 1) as int, (b + 1) as int);
                assert(split_scan(text@, a0 as int, b as int) == seq![
                    strip_cr(text@.subrange(a0 as int, b as int)),
                ] + rest);
                assert(next + rest =~= prev + (seq![strip_cr(text@.subrange(a0 as int, b as int))]
                    + rest));
            } else {
                assert(split_scan(text@, a as int, b as int) == split_scan(
                    text@,
                    a as int,
                    (b + 1) as int,
                ));
            }
            b = b + 1;
        }
        let stop = if b > a && text[b - 1] == CARRIAGE_RETURN {
            b - 1
        } else {
            b
        };
        assert(strip_cr(text@.subrange(a as int, n as int)) =~= text@.subrange(a as int, stop as int));
        let ghost prev = Seq::new(
            extents@.len(),
            |i: int| text@.subrange(extents@[i].start as int, extents@[i].stop as int),
        );
        let k = ind.len();
        extents.push(range(a, stop));
        ind.push(k);
        let ghost first = seq![ind@];
        let store = TextStore { text, extents };
        let buf = Buffer {
            store,
            indirection: ind,
            dirty: false,
            log: EditLog { ops: Vec::new(), executed: 0, pending: 0 },
            checkpoints: Vec::new(),
            undone: Vec::new(),
            last_cloned: None,
            tables: Ghost(first),
        };
        proof {
            assert(buf.history().lines =~= prev.push(text@.subrange(a as int, stop as int)));
            assert(buf.history().lines =~= split_lines(text@));
            assert(buf.history().undo =~= Seq::<EditState>::empty());
            assert(buf.history().redo =~= Seq::<EditState>::empty());
        }
        buf
    }

    proof fn lemma_tables_valid_grown(&self, n: nat)
        requires
            forall|i: int|
                0 <= i < self.tables@.len() ==> valid_table(
                    #[trigger] self.tables@[i],
                    self.store.num_extents(),
                ),
            self.store.num_extents() <= n,
        ensures
            forall|i: int|
                0 <= i < self.tables@.len() ==> valid_table(#[trigger] self.tables@[i], n),
    {
        assert forall|i: int| 0 <= i < self.tables@.len() implies valid_table(
            #[trigger] self.tables@[i],
            n,
        ) by {
            assert(valid_table(self.tables@[i], self.store.num_extents()));
        }
    }

    /// The edit that ends in `self` kept every checkpoint of `b0`: only the
    /// lines changed, and redo is gone.
    proof fn lemma_edit_history(&self, b0: Buffer)
        requires
            b0.wf(),
            self.wf(),
            b0.store.grown_to(self.store),
            self.checkpoints == b0.checkpoints,
            self.undone@.len() == 0,
            self.dirty == b0.dirty,
            forall|i: int| 0 <= i <= b0.log.executed ==> #[trigger] self.tables@[i] == b0.tables@[i],
        ensures
            self.history() == edit_model(b0.history(), self.history().lines),
    {
        let cps = self.checkpoints@;
        assert forall|i: int| 0 <= i < cps.len() implies #[trigger] self.state_at(cps[i]) == b0.state_at(
            cps[i],
        ) by {
            let c = cps[i].op_cursor as int;
            assert(b0.checkpoints@[i] == cps[i]);
            assert(valid_table(b0.tables@[c], b0.store.num_extents()));
            lemma_lines_of_grown(b0.store, self.store, b0.tables@[c]);
        }
        assert(self.history().undo =~= b0.history().undo);
        assert(self.history().redo =~= Seq::<EditState>::empty());
    }

    /// Starts an edit: redo is no longer possible and the last clone may no
    /// longer be edited in place.
    fn begin_edit(&mut self)
        requires
            old(self).wf(),
        ensures
            final(self).wf(),
            final(self).undone@.len() == 0,
            final(self).last_cloned.is_none(),
            final(self).store == old(self).store,
            final(self).indirection == old(self).indirection,
            final(self).log == old(self).log,
            final(self).tables == old(self).tables,
            final(self).checkpoints == old(self).checkpoints,
            final(self).dirty == old(self).dirty,
    {
        self.undone.clear();
        self.last_cloned = None;
    }

    /// Queues `op`, which takes the line table to `after`, dropping the
    /// operations kept for redo.
    fn push_op(&mut self, op: Op, Ghost(after): Ghost<Seq<usize>>)
        requires
            old(self).inv(),
            old(self).last_cloned.is_none(),
            old(self).undone@.len() == 0,
            op_unapplied(op, old(self).tables@[old(self).log.pending as int], after),
            valid_table(after, old(self).store.num_extents()),
        ensures
            final(self).inv(),
            final(self).last_cloned.is_none(),
            final(self).undone@.len() == 0,
            final(self).store == old(self).store,
            final(self).indirection == old(self).indirection,
            final(self).checkpoints == old(self).checkpoints,
            final(self).dirty == old(self).dirty,
            final(self).log.executed == old(self).log.executed,
            final(self).log.pending == old(self).log.pending + 1,
            final(self).tables@ == old(self).tables@.subrange(
                0,
                old(self).log.pending + 1,
            ).push(after),
    {
        let p = self.log.pending;
        self.log.ops.truncate(p);
        self.log.ops.push(op);
        self.log.pending = self.log.ops.len();
        let ghost t = self.tables@.subrange(0, p + 1).push(after);
        self.tables = Ghost(t);
        proof {
            let ops = self.log.ops@;
            assert forall|i: int| 0 <= i < t.len() implies valid_table(
                #[trigger] t[i],
                self.store.num_extents(),
            ) by {
                if i <= p {
                    assert(t[i] == old(self).tables@[i]);
                }
            }
            assert forall|i: int| self.log.executed <= i < ops.len() implies op_unapplied(
                #[trigger] ops[i],
                t[i],
                t[i + 1],
            ) by {
                if i < p {
                    assert(ops[i] == old(self).log.ops@[i]);
                }
            }
            assert forall|i: int| 0 <= i < self.log.executed implies op_applied(
                #[trigger] ops[i],
                t[i],
                t[i + 1],
            ) by {
                assert(ops[i] == old(self).log.ops@[i]);
            }
        }
    }

    /// Inserts an empty line at `p.y`.
    pub fn line_new(&mut self, p: Pos) -> (r: Opresult)
        requires
            old(self).wf(),
            0 <= p.y <= old(self).history().lines.len(),
        ensures
            final(self).wf(),
            final(self).history() == edit_model(
                old(self).history(),
                old(self).history().lines.insert(p.y as int, Seq::empty()),
            ),
            r == Opresult::Change(Pos { x: 0, y: p.y }),
    {
        proof {
            self.lemma_current_valid();
        }
        let y = p.y as usize;
        self.begin_edit();
        let ghost b1 = *self;
        let k = self.store.new_empty_line();
        proof {
            b1.lemma_tables_valid_grown(self.store.num_extents());
            lemma_lines_of_grown(b1.store, self.store, self.indirection@);
        }
        let ghost after = self.indirection@.insert(y as int, k);
        self.push_op(Op { line: y, extent: k, kind: OpKind::Insert }, Ghost(after));
        self.apply_pending();
        proof {
            lemma_lines_of_insert(self.store, old(self).indirection@, y as int, k);
            self.lemma_edit_history(*old(self));
        }
        Opresult::Change(pos(0, p.y))
    }

    /// Removes line `p.y`; does nothing to a buffer without lines.
    pub fn line_del(&mut self, p: Pos) -> (r: Opresult)
        requires
            old(self).wf(),
            old(self).history().lines.len() == 0 || 0 <= p.y < old(self).history().lines.len(),
        ensures
            final(self).wf(),
            old(self).history().lines.len() == 0 ==> final(self).history() == old(self).history()
                && r == Opresult::Noop,
            old(self).history().lines.len() > 0 ==> final(self).history() == edit_model(
                old(self).history(),
                old(self).history().lines.remove(p.y as int),
            ) && r == Opresult::Change(p),
    {
        proof {
            self.lemma_current_valid();
        }
        if self.indirection.len() == 0 {
            return Opresult::Noop;
        }
        let y = p.y as usize;
        self.begin_edit();
        let ghost after = self.indirection@.remove(y as int);
        self.push_op(Op { line: y, extent: 0, kind: OpKind::Delete }, Ghost(after));
        self.apply_pending();
        proof {
            lemma_lines_of_remove(self.store, old(self).indirection@, y as int);
            assert(old(self).store.grown_to(self.store)) by {
                assert(self.store.text@.subrange(0, self.store.text@.len() as int) =~= self.store.text@);
                assert(self.store.extents@.subrange(0, self.store.extents@.len() as int) =~= self.store.extents@);
            }
            self.lemma_edit_history(*old(self));
        }
        Opresult::Change(p)
    }

    /// Joins line `p.y` and the next one into one line.
    pub fn line_join(&mut self, p: Pos) -> (r: Opresult)
        requires
            old(self).wf(),
            0 <= p.y,
            p.y + 1 < old(self).history().lines.len(),
        ensures
            final(self).wf(),
            final(self).history() == edit_model(
                old(self).history(),
                joined(old(self).history().lines, p.y as int),
            ),
            r == Opresult::Change(p),
    {
        proof {
            self.lemma_current_valid();
        }
        let y = p.y as usize;
        self.begin_edit();
        let ghost b1 = *self;
        let k1 = self.indirection[y];
        let k2 = self.indirection[y + 1];
        let k = self.store.append_concat(k1, k2);
        proof {
            b1.lemma_tables_valid_grown(self.store.num_extents());
            lemma_lines_of_grown(b1.store, self.store, self.indirection@);
        }
        let ghost mid = self.indirection@.update(y as int, k);
        self.push_op(Op { line: y, extent: k, kind: OpKind::Replace }, Ghost(mid));
        let ghost after = mid.remove(y + 1);
        self.push_op(Op { line: y + 1, extent: 0, kind: OpKind::Delete }, Ghost(after));
        self.apply_pending();
        proof {
            lemma_lines_of_update(self.store, old(self).indirection@, y as int, k);
            lemma_lines_of_remove(self.store, mid, y + 1);
            assert(self.history().lines =~= joined(old(self).history().lines, p.y as int));
            self.lemma_edit_history(*old(self));
        }
        Opresult::Change(p)
    }

    /// Splits line `p.y` before column `p.x`; the cursor goes to the start of
    /// the new line.
    pub fn line_break(&mut self, p: Pos) -> (r: Opresult)
        requires
            old(self).wf(),
            0 <= p.y < old(self).history().lines.len(),
            p.y < i32::MAX,
            0 <= p.x <= old(self).history().lines[p.y as int].len(),
        ensures
            final(self).wf(),
            final(self).history() == edit_model(
                old(self).history(),
                broken(old(self).history().lines, p.x as int, p.y as int),
            ),
            r == Opresult::Change(Pos { x: 0, y: (p.y + 1) as i32 }),
    {
        proof {
            self.lemma_current_valid();
        }
        let y = p.y as usize;
        let x = p.x as usize;
        self.begin_edit();
        let ghost b1 = *self;
        let e = self.store.extents[self.indirection[y]];
        let (left, right) = e.cut(x);
        let kl = self.store.push_extent(left);
        let ghost b2 = *self;
        let kr = self.store.push_extent(right);
        proof {
            b1.store.lemma_grown_content(b2.store, self.indirection@[y as int] as int);
            assert(b1.store.grown_to(self.store)) by {
                assert(self.store.extents@.subrange(0, b1.store.extents@.len() as int) =~= b1.store.extents@);
            }
            b1.lemma_tables_valid_grown(self.store.num_extents());
            lemma_lines_of_grown(b1.store, self.store, self.indirection@);
            b2.store.lemma_grown_content(self.store, kl as int);
        }
        let ghost mid = self.indirection@.update(y as int, kl);
        self.push_op(Op { line: y, extent: kl, kind: OpKind::Replace }, Ghost(mid));
        let ghost after = mid.insert(y + 1, kr);
        self.push_op(Op { line: y + 1, extent: kr, kind: OpKind::Insert }, Ghost(after));
        self.apply_pending();
        proof {
            let l = old(self).history().lines[y as int];
            assert(self.store.content(kl as int) =~= l.subrange(0, x as int));
            assert(self.store.content(kr as int) =~= l.subrange(x as int, l.len() as int));
            lemma_lines_of_update(self.store, old(self).indirection@, y as int, kl);
            lemma_lines_of_insert(self.store, mid, y + 1, kr);
            assert(self.history().lines =~= broken(old(self).history().lines, p.x as int, p.y as int));
            self.lemma_edit_history(*old(self));
        }
        Opresult::Change(pos(0, p.y + 1))
    }

    /// An edit of the bytes of the cloned extent `k`, held by line `y` only,
    /// kept every other line and every checkpoint.
    proof fn lemma_in_place(&self, b0: Buffer, y: int, k: int)
        requires
            b0.wf(),
            b0.last_cloned == Some(k as usize),
            0 <= y < b0.indirection@.len(),
            b0.indirection@[y] == k,
            self.indirection == b0.indirection,
            self.tables == b0.tables,
            self.log == b0.log,
            self.checkpoints == b0.checkpoints,
            self.undone == b0.undone,
            self.last_cloned == b0.last_cloned,
            self.dirty == b0.dirty,
            self.store.extents@.len() == b0.store.extents@.len(),
            forall|j: int| 0 <= j < k ==> #[trigger] self.store.extents@[j] == b0.store.extents@[j],
            self.store.extents@[k].start == b0.store.extents@[k].start,
            self.store.extents@[k].start <= self.store.extents@[k].stop,
            self.store.extents@[k].stop == self.store.text@.len(),
            self.store.text@.subrange(0, b0.store.extents@[k].start as int) == b0.store.text@.subrange(
                0,
                b0.store.extents@[k].start as int,
            ),
        ensures
            self.wf(),
            self.history() == edit_model(
                b0.history(),
                b0.history().lines.update(y, self.store.content(k)),
            ),
    {
        let start = b0.store.extents@[k].start as int;
        b0.lemma_current_valid();
        assert(b0.store.extents@[k].stop <= b0.store.text@.len());
        assert forall|j: int| 0 <= j < k implies #[trigger] self.store.content(j) == b0.store.content(
            j,
        ) by {
            assert(b0.store.extents@[j].stop <= start);
            lemma_prefix_content(b0.store, self.store, j, start);
        }
        assert(self.store.wf()) by {
            assert forall|j: int| 0 <= j < self.store.extents@.len() implies (
            #[trigger] self.store.extents@[j]).start <= self.store.extents@[j].stop
                <= self.store.text@.len() by {
                if j < k {
                    assert(b0.store.extents@[j].stop <= start);
                    assert(b0.store.extents@[j].start <= b0.store.extents@[j].stop);
                }
            }
        }
        assert(self.store.num_extents() == b0.store.num_extents());
        assert(self.log_ok());
        assert(self.stacks_ok());
        assert(self.cloned_ok());
        let ind = self.indirection@;
        assert forall|l: int| 0 <= l < ind.len() && l != y implies #[trigger] ind[l] < k by {
            assert(ind[l] < b0.store.num_extents());
        }
        assert(self.history().lines =~= b0.history().lines.update(y, self.store.content(k)));
        let cps = self.checkpoints@;
        assert forall|i: int| 0 <= i < cps.len() implies #[trigger] self.state_at(cps[i]) == b0.state_at(
            cps[i],
        ) by {
            let c = cps[i].op_cursor as int;
            let t = self.tables@[c];
            assert(valid_table(b0.tables@[c], b0.store.num_extents()));
            assert forall|l: int| 0 <= l < t.len() implies lines_of(self.store, t)[l] == lines_of(
                b0.store,
                t,
            )[l] by {
                assert(t[l] != k);
                assert(t[l] < b0.store.num_extents());
            }
            assert(lines_of(self.store, t) =~= lines_of(b0.store, t));
        }
        assert(self.history().undo =~= b0.history().undo);
        assert(self.history().redo =~= Seq::<EditState>::empty());
    }

    /// Makes line `y` hold an extent that may be edited in place: a fresh
    /// copy, unless the line holds the last clone already.
    fn own_line(&mut self, y: usize) -> (k: usize)
        requires
            old(self).wf(),
            y < old(self).history().lines.len(),
        ensures
            final(self).wf(),
            final(self).last_cloned == Some(k),
            final(self).indirection@.len() == old(self).indirection@.len(),
            final(self).indirection@[y as int] == k,
            final(self).history() == edit_model(old(self).history(), old(self).history().lines),
    {
        proof {
            self.lemma_current_valid();
        }
        let cur = self.indirection[y];
        match self.last_cloned {
            Some(k) => {
                if k == cur {
                    assert(self.history().redo =~= Seq::<EditState>::empty());
                    assert(self.history() == edit_model(old(self).history(), old(self).history().lines));
                    return k;
                }
            },
            None => {},
        }
        self.begin_edit();
        let ghost b1 = *self;
        let k = self.store.append_line_copy(cur);
        proof {
            b1.lemma_tables_valid_grown(self.store.num_extents());
            lemma_lines_of_grown(b1.store, self.store, self.indirection@);
            b1.store.lemma_grown_content(self.store, cur as int);
        }
        let ghost after = self.indirection@.update(y as int, k);
        self.push_op(Op { line: y, extent: k, kind: OpKind::Replace }, Ghost(after));
        self.apply_pending();
        proof {
            lemma_lines_of_update(self.store, old(self).indirection@, y as int, k);
            assert(self.history().lines =~= old(self).history().lines);
            self.lemma_edit_history(*old(self));
        }
        let ghost h_mid = self.history();
        self.last_cloned = Some(k);
        proof {
            assert(self.history().undo =~= h_mid.undo);
            assert(self.history().redo =~= h_mid.redo);
            let ex = self.store.extents@;
            assert forall|j: int| 0 <= j < k implies (#[trigger] ex[j]).stop <= ex[k as int].start by {
                assert(ex[j] == b1.store.extents@[j]);
                assert(b1.store.extents@[j].start <= b1.store.extents@[j].stop);
            }
            let t = self.tables@;
            let cps = self.checkpoints@;
            assert forall|i: int, l: int|
                0 <= i < cps.len() && 0 <= l < t[cps[i].op_cursor as int].len() implies #[trigger] t[cps[i].op_cursor as int][l]
                != k by {
                let c = cps[i].op_cursor as int;
                assert(t[c] == b1.tables@[c]);
                assert(valid_table(b1.tables@[c], b1.store.num_extents()));
            }
            let ind = self.indirection@;
            assert forall|l: int| 0 <= l < ind.len() && l != y implies #[trigger] ind[l] != k by {
                assert(ind[l] == old(self).indirection@[l]);
            }
            assert(self.cloned_ok());
            assert(self.history() == edit_model(old(self).history(), old(self).history().lines));
        }
        k
    }

    /// Makes line `lineno` safe to edit byte by byte: the checkpoints keep
    /// seeing its present bytes.
    pub fn prepare_insert(&mut self, lineno: usize)
        requires
            old(self).wf(),
            lineno < old(self).history().lines.len(),
        ensures
            final(self).wf(),
            final(self).history() == edit_model(old(self).history(), old(self).history().lines),
    {
        self.own_line(lineno);
    }

    /// Edits byte `x` of line `y` in place: `b` is inserted before it
    /// (`insert`), or overwrites it, or is appended when `x` is the length.
    fn edit_byte(&mut self, y: usize, x: usize, b: u8, insert: bool)
        requires
            old(self).wf(),
            y < old(self).history().lines.len(),
            x <= old(self).history().lines[y as int].len(),
        ensures
            final(self).wf(),
            final(self).history() == edit_model(
                old(self).history(),
                old(self).history().lines.update(
                    y as int,
                    if insert {
                        old(self).history().lines[y as int].insert(x as int, b)
                    } else if x == old(self).history().lines[y as int].len() {
                        old(self).history().lines[y as int].push(b)
                    } else {
                        old(self).history().lines[y as int].update(x as int, b)
                    },
                ),
            ),
    {
        let k = self.own_line(y);
        let ghost b1 = *self;
        proof {
            b1.lemma_current_valid();
        }
        let e = self.store.extents[k];
        if insert {
            self.store.text.insert(e.start + x, b);
        } else if x == e.stop - e.start {
            self.store.text.push(b);
        } else {
            self.store.text.set(e.start + x, b);
        }
        let stop = if insert || x == e.stop - e.start {
            self.store.text.len()
        } else {
            e.stop
        };
        self.store.extents.set(k, Range { start: e.start, stop });
        proof {
            let l = b1.history().lines[y as int];
            assert(l == b1.store.content(k as int));
            assert(self.store.text@.subrange(0, e.start as int) =~= b1.store.text@.subrange(
                0,
                e.start as int,
            ));
            if insert {
                assert(self.store.content(k as int) =~= l.insert(x as int, b));
            } else if x == e.stop - e.start {
                assert(self.store.content(k as int) =~= l.push(b));
            } else {
                assert(self.store.content(k as int) =~= l.update(x as int, b));
            }
            self.lemma_in_place(b1, y as int, k as int);
        }
    }

    /// Removes byte `x` of line `y`, in place.
    fn remove_byte(&mut self, y: usize, x: usize)
        requires
            old(self).wf(),
            y < old(self).history().lines.len(),
            x < old(self).history().lines[y as int].len(),
        ensures
            final(self).wf(),
            final(self).history() == edit_model(
                old(self).history(),
                old(self).history().lines.update(
                    y as int,
                    old(self).history().lines[y as int].remove(x as int),
                ),
            ),
    {
        let k = self.own_line(y);
        let ghost b1 = *self;
        proof {
            b1.lemma_current_valid();
        }
        let e = self.store.extents[k];
        self.store.text.remove(e.start + x);
        let stop = self.store.text.len();
        self.store.extents.set(k, Range { start: e.start, stop });
        proof {
            let l = b1.history().lines[y as int];
            assert(l == b1.store.content(k as int));
            assert(self.store.text@.subrange(0, e.start as int) =~= b1.store.text@.subrange(
                0,
                e.start as int,
            ));
            assert(self.store.content(k as int) =~= l.remove(x as int));
            self.lemma_in_place(b1, y as int, k as int);
        }
    }

    /// Types `c` at `p`: inserted before column `p.x`, or overwriting it; the
    /// cursor moves one column right.
    pub fn char_insert(&mut self, mode: InsertMode, p: Pos, c: char) -> (r: Opresult)
        requires
            old(self).wf(),
            0 <= p.y < old(self).history().lines.len(),
            0 <= p.x <= old(self).history().lines[p.y as int].len(),
            p.x < i32::MAX,
            (c as u32) < 256,
        ensures
            final(self).wf(),
            final(self).history() == edit_model(
                old(self).history(),
                typed(old(self).history().lines, mode, p.x as int, p.y as int, c as u8),
            ),
            r == Opresult::Change(Pos { x: (p.x + 1) as i32, y: p.y }),
    {
        let b = c as u8;
        let insert = match mode {
            InsertMode::Insert => true,
            InsertMode::Replace => false,
        };
        self.edit_byte(p.y as usize, p.x as usize, b, insert);
        Opresult::Change(pos(p.x + 1, p.y))
    }

    /// Removes the byte at `cursor`.
    pub fn char_delete(&mut self, cursor: Pos)
        requires
            old(self).wf(),
            0 <= cursor.y < old(self).history().lines.len(),
            0 <= cursor.x < old(self).history().lines[cursor.y as int].len(),
        ensures
            final(self).wf(),
            final(self).history() == edit_model(
                old(self).history(),
                old(self).history().lines.update(
                    cursor.y as int,
                    old(self).history().lines[cursor.y as int].remove(cursor.x as int),
                ),
            ),
    {
        self.remove_byte(cursor.y as usize, cursor.x as usize);
    }

    /// Forward delete at `cursor`.
    pub fn del(&mut self, cursor: Pos) -> (r: Opresult)
        requires
            old(self).wf(),
            old(self).history().lines.len() <= i32::MAX,
            0 <= cursor.y < old(self).history().lines.len(),
            0 <= cursor.x,
            old(self).history().lines[cursor.y as int].len() == 0 || cursor.x < old(
                self,
            ).history().lines[cursor.y as int].len(),
        ensures
            final(self).wf(),
            final(self).history() == edit_model(
                old(self).history(),
                deleted(old(self).history().lines, cursor.x as int, cursor.y as int),
            ),
            r == Opresult::Change(delete_cursor(old(self).history().lines, cursor)),
    {
        let ghost lines = self.history().lines;
        let (colno, lineno) = cursor.usize();
        let len = self.line_len(lineno);
        if len == 0 {
            self.line_del(cursor);
            return Opresult::Change(cursor);
        }
        if lineno == self.line_last() && colno == len - 1 {
            self.char_delete(cursor);
            return Opresult::Change(cursor.sub(pos(1, 0)));
        }
        if colno == len - 1 {
            if self.line_len(lineno + 1) == 0 {
                self.line_del(cursor.add(pos(0, 1)));
                return Opresult::Change(cursor);
            }
            self.char_delete(cursor);
            self.line_join(cursor);
            return Opresult::Change(cursor);
        }
        self.char_delete(cursor);
        Opresult::Change(cursor)
    }

    /// Backspace at `cursor`; nothing happens at the start of the first line.
    pub fn backspace(&mut self, cursor: Pos) -> (r: Opresult)
        requires
            old(self).wf(),
            old(self).history().lines.len() <= i32::MAX,
            0 <= cursor.y < old(self).history().lines.len(),
            0 <= cursor.x <= old(self).history().lines[cursor.y as int].len(),
            cursor.y > 0 ==> old(self).history().lines[cursor.y - 1].len() <= i32::MAX,
        ensures
            final(self).wf(),
            cursor.x == 0 && cursor.y == 0 ==> final(self).history() == old(self).history() && r
                == Opresult::Noop,
            !(cursor.x == 0 && cursor.y == 0) ==> final(self).history() == edit_model(
                old(self).history(),
                backspaced(old(self).history().lines, cursor.x as int, cursor.y as int),
            ) && r == Opresult::Change(backspace_cursor(old(self).history().lines, cursor)),
    {
        if cursor.x == 0 && cursor.y == 0 {
            return Opresult::Noop;
        }
        let cursor_prev = if cursor.x > 0 {
            cursor.sub(pos(1, 0))
        } else {
            let prev_len = self.line_len((cursor.y - 1) as usize);
            pos(prev_len as i32, cursor.y - 1)
        };
        let r = Opresult::Change(cursor_prev);
        let lineno = cursor.y as usize;
        let len = self.line_len(lineno);
        if len == 0 {
            self.line_del(cursor);
            return r;
        }
        if cursor.x == 0 && self.line_len(lineno - 1) == 0 {
            self.line_del(cursor.sub(pos(0, 1)));
            return r;
        }
        if cursor.x == 0 {
            self.line_join(cursor.sub(pos(0, 1)));
            return r;
        }
        self.char_delete(cursor_prev);
        r
    }

    /// The bytes to save: every line followed by a newline, but for a
    /// final empty line (see `saved_lines`).
    pub fn to_text(&self) -> (r: Vec<u8>)
        requires
            self.wf(),
        ensures
            r@ == terminated(saved_lines(self.history().lines)),
    {
        proof {
            self.lemma_current_valid();
        }
        let ghost lines = self.history().lines;
        let mut out: Vec<u8> = Vec::new();
        let mut n = self.indirection.len();
        if n > 0 && self.line_len(n - 1) == 0 {
            n = n - 1;
        }
        let ghost keep = saved_lines(lines);
        assert(keep =~= lines.subrange(0, n as int));
        let mut i: usize = 0;
        while i < n
            invariant
                self.wf(),
                lines == self.history().lines,
                n <= lines.len(),
                keep == lines.subrange(0, n as int),
                i <= n,
                out@ == terminated(lines.subrange(0, i as int)),
            decreases n - i,
        {
            proof {
                self.lemma_current_valid();
            }
            let ghost before = out@;
            let len = self.line_len(i);
            let mut j: usize = 0;
            while j < len
                invariant
                    self.wf(),
                    lines == self.history().lines,
                    i < n <= lines.len(),
                    len == lines[i as int].len(),
                    j <= len,
                    out@ == before + lines[i as int].subrange(0, j as int),
                decreases len - j,
            {
                let b = self.char_at(i, j);
                out.push(b);
                j = j + 1;
                assert(out@ =~= before + lines[i as int].subrange(0, j as int));
            }
            out.push(NEWLINE);
            proof {
                let next = lines.subrange(0, i + 1);
                assert(next.drop_last() =~= lines.subrange(0, i as int));
                assert(lines[i as int].subrange(0, len as int) =~= lines[i as int]);
                assert(out@ =~= terminated(lines.subrange(0, i as int)) + lines[i as int] + seq![NEWLINE]);
            }
            i = i + 1;
        }
        out
    }

    /// Marks the content as saved.
    pub fn mark_saved(&mut self)
        requires
            old(self).wf(),
        ensures
            final(self).wf(),
            final(self).history() == (History { dirty: false, ..old(self).history() }),
    {
        let ghost h0 = self.history();
        self.dirty = false;
        proof {
            assert(self.history().undo =~= h0.undo);
            assert(self.history().redo =~= h0.redo);
        }
    }

    /// The lines `offset.y ..` (at most `want_nlines` of them), each from
    /// column `offset.x` on.
    pub fn iter(&self, offset: Pos, want_nlines: i32) -> (r: Vec<&[u8]>)
        requires
            self.wf(),
            self.history().lines.len() <= i32::MAX,
            0 <= offset.x,
            0 <= offset.y,
        ensures
            ({
                let lines = self.history().lines;
                let avail = lines.len() - offset.y;
                let n = if want_nlines < avail {
                    want_nlines as int
                } else {
                    avail
                };
                &&& r@.len() == if n < 0 {
                    0
                } else {
                    n
                }
                &&& forall|i: int|
                    0 <= i < r@.len() ==> (#[trigger] r@[i])@ == ({
                        let l = lines[offset.y + i];
                        if offset.x <= l.len() {
                            l.subrange(offset.x as int, l.len() as int)
                        } else {
                            Seq::empty()
                        }
                    })
            }),
    {
        let avail = self.nlines() - offset.y;
        let n = if want_nlines < avail {
            want_nlines
        } else {
            avail
        };
        let mut out: Vec<&[u8]> = Vec::new();
        let mut i: i32 = 0;
        while i < n
            invariant
                self.wf(),
                self.history().lines.len() <= i32::MAX,
                0 <= offset.x,
                0 <= offset.y,
                n <= self.history().lines.len() - offset.y,
                0 <= i,
                i <= n || i == 0,
                out@.len() == i,
                forall|k: int|
                    0 <= k < i ==> (#[trigger] out@[k])@ == ({
                        let l = self.history().lines[offset.y + k];
                        if offset.x <= l.len() {
                            l.subrange(offset.x as int, l.len() as int)
                        } else {
                            Seq::empty()
                        }
                    }),
            decreases n - i,
        {
            out.push(self.line_get_slice(pos(offset.x, offset.y + i)));
            i = i + 1;
        }
        out
    }

    /// Every line, whole.
    pub fn iter_all(&self) -> (r: Vec<&[u8]>)
        requires
            self.wf(),
            self.history().lines.len() <= i32::MAX,
        ensures
            r@.len() == self.history().lines.len(),
            forall|i: int| 0 <= i < r@.len() ==> (#[trigger] r@[i])@ == self.history().lines[i],
    {
        let r = self.iter(pos(0, 0), self.nlines());
        proof {
            assert forall|i: int| 0 <= i < r@.len() implies (#[trigger] r@[i])@ == self.history().lines[i] by {
                let l = self.history().lines[i];
                assert(l.subrange(0, l.len() as int) =~= l);
            }
        }
        r
    }
}

} // verus!

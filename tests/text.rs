use czl::geometry::pos;
use czl::text::{Buffer, InsertMode, Opresult};

fn lines(b: &Buffer) -> Vec<Vec<u8>> {
    (0..b.line_count())
        .map(|i| (0..b.line_len(i)).map(|j| b.char_at(i, j)).collect())
        .collect()
}

fn strs(v: &[&str]) -> Vec<Vec<u8>> {
    v.iter().map(|s| s.as_bytes().to_vec()).collect()
}

#[test]
fn from_text_splits_lines() {
    let b = Buffer::from_text(b"abc\ndef\r\n\nxyz".to_vec());
    assert_eq!(lines(&b), strs(&["abc", "def", "", "xyz"]));
    let t = Buffer::from_text(b"one\n".to_vec());
    assert_eq!(lines(&t), strs(&["one", ""]));
    let e = Buffer::from_text(Vec::new());
    assert_eq!(lines(&e), strs(&[""]));
    assert!(!b.is_dirty());
}

#[test]
fn to_text_ends_every_line() {
    let b = Buffer::from_text(b"first\nsecond\n\nlast".to_vec());
    assert_eq!(b.to_text(), b"first\nsecond\n\nlast\n".to_vec());
    assert_eq!(Buffer::from_text(b"x\n".to_vec()).to_text(), b"x\n".to_vec());
    assert_eq!(Buffer::from_text(b"x".to_vec()).to_text(), b"x\n".to_vec());
    assert_eq!(Buffer::from_text(Vec::new()).to_text(), Vec::<u8>::new());
    assert_eq!(Buffer::from_text(b"a\n\n".to_vec()).to_text(), b"a\n\n".to_vec());
}

#[test]
fn line_break_scenario_then_undo() {
    let mut b = Buffer::from_text(b"abc\ndef".to_vec());
    b.snapshot(pos(3, 0));
    let r = b.line_break(pos(3, 0));
    assert_eq!(r, Opresult::Change(pos(0, 1)));
    assert_eq!(lines(&b), strs(&["abc", "", "def"]));
    let u = b.undo(pos(0, 1));
    assert_eq!(u, Opresult::Change(pos(3, 0)));
    assert_eq!(lines(&b), strs(&["abc", "def"]));
}

#[test]
fn undo_redo_inverse_over_commands() {
    let mut b = Buffer::from_text(b"hello\nworld".to_vec());
    let initial = lines(&b);
    b.snapshot(pos(1, 0));
    b.line_break(pos(2, 0));
    b.snapshot(pos(0, 1));
    b.char_insert(InsertMode::Insert, pos(0, 1), 'X');
    b.snapshot(pos(1, 2));
    b.line_del(pos(0, 2));
    b.snapshot(pos(0, 0));
    b.line_join(pos(0, 0));
    let after = lines(&b);
    assert_eq!(after, strs(&["heXllo"]));
    assert!(b.is_dirty());

    let mut c = pos(4, 0);
    for _ in 0..4 {
        match b.undo(c) {
            Opresult::Change(p) => c = p,
            other => panic!("unexpected {:?}", other),
        }
    }
    assert_eq!(lines(&b), initial);
    assert_eq!(c, pos(1, 0));
    assert!(!b.is_dirty());
    assert_eq!(b.undo(c), Opresult::Noop);

    for _ in 0..4 {
        match b.redo(c) {
            Opresult::Change(p) => c = p,
            other => panic!("unexpected {:?}", other),
        }
    }
    assert_eq!(lines(&b), after);
    assert_eq!(c, pos(4, 0));
    assert_eq!(b.redo(c), Opresult::Noop);
}

#[test]
fn new_edit_drops_redo() {
    let mut b = Buffer::from_text(b"ab".to_vec());
    b.snapshot(pos(0, 0));
    b.line_new(pos(0, 0));
    b.undo(pos(0, 0));
    b.snapshot(pos(0, 0));
    b.char_delete(pos(0, 0));
    assert_eq!(lines(&b), strs(&["b"]));
    assert_eq!(b.redo(pos(0, 0)), Opresult::Noop);
    b.undo(pos(0, 0));
    assert_eq!(lines(&b), strs(&["ab"]));
}

#[test]
fn break_join_round_trip() {
    for col in [0i32, 2, 5] {
        let mut b = Buffer::from_text(b"hello\nrest".to_vec());
        b.line_break(pos(col, 0));
        assert_eq!(b.line_count(), 3);
        b.line_join(pos(0, 0));
        assert_eq!(lines(&b), strs(&["hello", "rest"]));
    }
}

#[test]
fn delete_sole_char_leaves_empty_line() {
    let mut b = Buffer::from_text(b"a".to_vec());
    let r = b.del(pos(0, 0));
    assert_eq!(lines(&b), strs(&[""]));
    assert_eq!(r, Opresult::Change(pos(-1, 0)));
}

#[test]
fn delete_last_char_of_last_line_shrinks() {
    let mut b = Buffer::from_text(b"ab\ncd".to_vec());
    b.del(pos(1, 1));
    assert_eq!(lines(&b), strs(&["ab", "c"]));
}

#[test]
fn delete_before_empty_line_removes_it() {
    let mut b = Buffer::from_text(b"ab\n\ncd".to_vec());
    let r = b.del(pos(1, 0));
    assert_eq!(lines(&b), strs(&["ab", "cd"]));
    assert_eq!(r, Opresult::Change(pos(1, 0)));
}

#[test]
fn delete_at_line_end_joins() {
    let mut b = Buffer::from_text(b"ab\ncd".to_vec());
    b.del(pos(1, 0));
    assert_eq!(lines(&b), strs(&["acd"]));
}

#[test]
fn delete_empty_line_and_middle_char() {
    let mut b = Buffer::from_text(b"\nabc".to_vec());
    b.del(pos(0, 0));
    assert_eq!(lines(&b), strs(&["abc"]));
    b.del(pos(1, 0));
    assert_eq!(lines(&b), strs(&["ac"]));
}

#[test]
fn backspace_at_column_zero_joins() {
    let mut b = Buffer::from_text(b"abc\ndef".to_vec());
    let r = b.backspace(pos(0, 1));
    assert_eq!(lines(&b), strs(&["abcdef"]));
    assert_eq!(r, Opresult::Change(pos(3, 0)));
}

#[test]
fn backspace_cases() {
    let mut b = Buffer::from_text(b"abc\n\nx".to_vec());
    assert_eq!(b.backspace(pos(0, 0)), Opresult::Noop);
    assert_eq!(b.backspace(pos(2, 0)), Opresult::Change(pos(1, 0)));
    assert_eq!(lines(&b), strs(&["ac", "", "x"]));
    assert_eq!(b.backspace(pos(0, 1)), Opresult::Change(pos(2, 0)));
    assert_eq!(lines(&b), strs(&["ac", "x"]));
    let mut c = Buffer::from_text(b"\nx".to_vec());
    assert_eq!(c.backspace(pos(0, 1)), Opresult::Change(pos(0, 0)));
    assert_eq!(lines(&c), strs(&["x"]));
}

#[test]
fn char_insert_and_replace() {
    let mut b = Buffer::from_text(b"ac".to_vec());
    assert_eq!(b.char_insert(InsertMode::Insert, pos(1, 0), 'b'), Opresult::Change(pos(2, 0)));
    assert_eq!(lines(&b), strs(&["abc"]));
    b.char_insert(InsertMode::Replace, pos(0, 0), 'X');
    b.char_insert(InsertMode::Replace, pos(3, 0), 'd');
    assert_eq!(lines(&b), strs(&["Xbcd"]));
}

#[test]
fn typing_after_checkpoint_undoes_at_once() {
    let mut b = Buffer::from_text(b"x\nkeep".to_vec());
    b.snapshot(pos(0, 0));
    b.prepare_insert(0);
    for (i, c) in "hey".chars().enumerate() {
        b.char_insert(InsertMode::Insert, pos(i as i32, 0), c);
    }
    assert_eq!(lines(&b), strs(&["heyx", "keep"]));
    b.undo(pos(3, 0));
    assert_eq!(lines(&b), strs(&["x", "keep"]));
    b.redo(pos(0, 0));
    assert_eq!(lines(&b), strs(&["heyx", "keep"]));
}

#[test]
fn line_del_on_empty_buffer_is_noop() {
    let mut b = Buffer::from_text(Vec::new());
    assert_eq!(b.line_del(pos(0, 0)), Opresult::Change(pos(0, 0)));
    assert_eq!(b.line_count(), 0);
    assert_eq!(b.line_del(pos(0, 0)), Opresult::Noop);
    assert_eq!(b.line_new(pos(3, 0)), Opresult::Change(pos(0, 0)));
    assert_eq!(lines(&b), strs(&[""]));
}

#[test]
fn line_slices_and_counts() {
    let b = Buffer::from_text(b"abc\nde".to_vec());
    assert_eq!(b.nlines(), 2);
    assert_eq!(b.line_last(), 1);
    assert_eq!(b.line_get_slice(pos(1, 0)), b"bc");
    assert_eq!(b.line_get_slice(pos(5, 1)), b"");
}

#[test]
fn mark_saved_clears_dirty() {
    let mut b = Buffer::from_text(b"a".to_vec());
    b.snapshot(pos(0, 0));
    assert!(b.is_dirty());
    b.mark_saved();
    assert!(!b.is_dirty());
    b.ops_do();
    assert!(!b.is_dirty());
}

#[test]
fn iter_lines_from_offset() {
    let b = Buffer::from_text(b"abc\nde\nf".to_vec());
    let v = b.iter(pos(1, 1), 5);
    assert_eq!(v, vec![&b"e"[..], &b""[..]]);
    assert_eq!(b.iter_all(), vec![&b"abc"[..], &b"de"[..], &b"f"[..]]);
    assert!(b.iter(pos(0, 4), 2).is_empty());
    assert_eq!(b.iter(pos(0, 0), 1), vec![&b"abc"[..]]);
}

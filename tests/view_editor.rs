use czl::editor::{Editor, Effect, Mode};
use czl::geometry::{pos, rec};
use czl::input::{Input, CTRL_C, ENTER, ESC, TAB};
use czl::text::{Buffer, InsertMode};
use czl::view::FileView;

fn lines(b: &Buffer) -> Vec<Vec<u8>> {
    (0..b.line_count())
        .map(|i| (0..b.line_len(i)).map(|j| b.char_at(i, j)).collect())
        .collect()
}

fn strs(v: &[&str]) -> Vec<Vec<u8>> {
    v.iter().map(|s| s.as_bytes().to_vec()).collect()
}

#[test]
fn update_clamps_cursor() {
    let b = Buffer::from_text(b"abc\nde".to_vec());
    let mut v = FileView::mk_fileview("f".to_string(), pos(3, 2), true);
    v.cursor = pos(10, 7);
    v.update(&b);
    assert_eq!(v.cursor, pos(1, 1));
    v.cursor = pos(-4, -2);
    v.update(&b);
    assert_eq!(v.cursor, pos(0, 0));
    let e = Buffer::from_text(b"\nx".to_vec());
    v.cursor = pos(3, 0);
    v.update(&e);
    assert_eq!(v.cursor, pos(0, 0));
}

#[test]
fn viewport_follows_jumps() {
    let b = Buffer::from_text(b"0\n1\n2\n3\n4\n5\n6\n7\n8\n9".to_vec());
    let mut v = FileView::mk_fileview("f".to_string(), pos(3, 2), true);
    v.go_file_end(&b);
    v.update(&b);
    assert_eq!(v.cursor, pos(0, 9));
    assert_eq!(v.filearea, rec(0, 8, 3, 10));
    v.go_file_start();
    v.update(&b);
    assert_eq!(v.filearea, rec(0, 0, 3, 2));
    v.go_page_down(&b);
    assert_eq!(v.cursor, pos(0, 9));
    v.go_page_up();
    assert_eq!(v.cursor, pos(0, 0));
}

#[test]
fn viewport_smaller_than_one_line_grows() {
    let b = Buffer::from_text(b"a\nb\nc".to_vec());
    let mut v = FileView::mk_fileview("f".to_string(), pos(4, 0), true);
    v.cursor = pos(0, 2);
    v.update(&b);
    assert!(v.filearea.contains(v.cursor));
    assert_eq!(v.filearea, rec(0, 2, 4, 3));
    v.cursor = pos(0, 0);
    v.update(&b);
    assert_eq!(v.filearea, rec(0, 0, 4, 1));
}

#[test]
fn viewport_stays_while_cursor_inside() {
    let b = Buffer::from_text(b"a\nb\nc\nd".to_vec());
    let mut v = FileView::mk_fileview("f".to_string(), pos(4, 3), true);
    v.cursor = pos(0, 2);
    v.update(&b);
    assert_eq!(v.filearea, rec(0, 0, 4, 3));
    v.recenter();
    assert_eq!(v.filearea, rec(0, 1, 4, 4));
}

#[test]
fn update_on_empty_buffer_changes_nothing() {
    let mut b = Buffer::from_text(Vec::new());
    b.line_del(pos(0, 0));
    let mut v = FileView::mk_fileview("f".to_string(), pos(4, 3), true);
    v.cursor = pos(5, 5);
    v.update(&b);
    assert_eq!(v.cursor, pos(5, 5));
}

#[test]
fn cursor_next_and_prev() {
    let b = Buffer::from_text(b"ab\n\ncd".to_vec());
    assert_eq!(FileView::cursor_next(&b, pos(0, 0)), pos(1, 0));
    assert_eq!(FileView::cursor_next(&b, pos(1, 0)), pos(0, 1));
    assert_eq!(FileView::cursor_next(&b, pos(1, 2)), pos(1, 2));
    assert_eq!(FileView::cursor_prev(&b, pos(0, 2)), pos(0, 1));
    assert_eq!(FileView::cursor_prev(&b, pos(0, 1)), pos(1, 0));
    assert_eq!(FileView::cursor_prev(&b, pos(0, 0)), pos(0, 0));
}

fn editor(text: &[u8]) -> Editor {
    Editor::mk_editor("f.txt".to_string(), text.to_vec(), pos(20, 6)).unwrap()
}

#[test]
fn command_mode_edit_and_undo() {
    let mut e = editor(b"abc\ndef");
    let (m, eff) = Mode::process_input(Mode::Command, Input::Key('x'), &mut e);
    assert_eq!((m, eff), (Mode::Command, Effect::Nothing));
    assert_eq!(lines(&e.buffer), strs(&["bc", "def"]));
    Mode::process_input(Mode::Command, Input::Key('j'), &mut e);
    assert_eq!(e.view.cursor, pos(0, 1));
    Mode::process_input(Mode::Command, Input::Key('u'), &mut e);
    assert_eq!(lines(&e.buffer), strs(&["abc", "def"]));
    assert_eq!(e.view.cursor, pos(0, 0));
    Mode::process_input(Mode::Command, Input::Key('r'), &mut e);
    assert_eq!(lines(&e.buffer), strs(&["bc", "def"]));
    assert_eq!(e.view.cursor, pos(0, 1));
}

#[test]
fn command_mode_line_break_and_undo() {
    let mut e = editor(b"abc\ndef");
    Mode::process_input(Mode::Command, Input::Key('l'), &mut e);
    Mode::process_input(Mode::Command, Input::Key(ENTER), &mut e);
    assert_eq!(lines(&e.buffer), strs(&["a", "bc", "def"]));
    assert_eq!(e.view.cursor, pos(0, 1));
    Mode::process_input(Mode::Command, Input::Key('u'), &mut e);
    assert_eq!(lines(&e.buffer), strs(&["abc", "def"]));
    assert_eq!(e.view.cursor, pos(1, 0));
}

#[test]
fn insert_mode_session() {
    let mut e = editor(b"xy");
    let (m, _) = Mode::process_input(Mode::Command, Input::Key(TAB), &mut e);
    assert_eq!(m, Mode::PendingInsert(InsertMode::Insert));
    let (m, _) = Mode::process_input(m, Input::Key('a'), &mut e);
    assert_eq!(m, Mode::Insert(InsertMode::Insert));
    let (m, _) = Mode::process_input(m, Input::Key('b'), &mut e);
    assert_eq!(lines(&e.buffer), strs(&["abxy"]));
    let (m, _) = Mode::process_input(m, Input::Key(ESC), &mut e);
    assert_eq!(m, Mode::Command);
    Mode::process_input(m, Input::Key('u'), &mut e);
    assert_eq!(lines(&e.buffer), strs(&["xy"]));
}

#[test]
fn mode_transitions_and_effects() {
    let mut e = editor(b"a");
    assert_eq!(Mode::process_input(Mode::Command, Input::Key('s'), &mut e), (Mode::Command, Effect::Save));
    assert_eq!(Mode::process_input(Mode::Command, Input::Resize, &mut e), (Mode::Command, Effect::Nothing));
    assert_eq!(
        Mode::process_input(Mode::Insert(InsertMode::Replace), Input::EscZ, &mut e),
        (Mode::Command, Effect::Nothing)
    );
    assert_eq!(Mode::process_input(Mode::Command, Input::Key(CTRL_C), &mut e), (Mode::Exit, Effect::Nothing));
    assert_eq!(Mode::Command.name(), "Command  ");
    assert_eq!(Mode::PendingInsert(InsertMode::Replace).name(), "Replace? ");
}

#[test]
fn refresh_paints_footer() {
    let e = editor(b"hello");
    let mut f = czl::draw::Framebuffer::mk_framebuffer(e.window);
    e.refresh_screen(&mut f, Mode::Command);
    let out = f.output_bytes().to_vec();
    assert!(out.windows(5).any(|w| w == b"hello"));
    assert!(out.windows(7).any(|w| w == b"Command"));
    assert!(out.windows(6).any(|w| w == b"f.txt "));
}

#[test]
fn mk_editor_lays_out() {
    let e = editor(b"a\nb");
    assert_eq!(e.footer, rec(0, 5, 20, 6));
    assert_eq!(e.view.filearea, rec(0, 0, 15, 4));
    assert_eq!(e.buffer.line_count(), 2);
}

#[test]
fn cursor_and_viewport_hold_over_a_session() {
    let mut e = editor(b"first line\n\nthird\nfourth line here\nfifth\nsixth\nseventh\neighth");
    let keys: Vec<Input> = "jjjlllllllllllxxdOq\tabc\x1b\x0cjjjkkk\x08\x18uuurrr oj\x04\x15d"
        .chars()
        .map(Input::Key)
        .collect();
    let mut m = Mode::Command;
    for k in keys {
        let (next, _) = Mode::process_input(m, k, &mut e);
        m = next;
        let n = e.buffer.line_count() as i32;
        let c = e.view.cursor;
        if n > 0 {
            assert!(0 <= c.y && c.y < n);
            let len = e.buffer.line_len(c.y as usize) as i32;
            assert!(0 <= c.x && c.x <= std::cmp::max(0, len - 1));
            let a = e.view.filearea;
            assert!(a.min.x <= c.x && c.x < a.max.x && a.min.y <= c.y && c.y < a.max.y);
        }
    }
    assert_eq!(m, Mode::Command);
}

#[test]
fn resize_in_pending_insert_takes_the_checkpoint() {
    let mut e = editor(b"xy");
    let (m, _) = Mode::process_input(Mode::Command, Input::Key(TAB), &mut e);
    let (m, eff) = Mode::process_input(m, Input::Resize, &mut e);
    assert_eq!((m, eff), (Mode::Insert(InsertMode::Insert), Effect::Nothing));
    let (m, _) = Mode::process_input(m, Input::Key('a'), &mut e);
    assert_eq!(lines(&e.buffer), strs(&["axy"]));
    let (m, _) = Mode::process_input(m, Input::Key(ESC), &mut e);
    Mode::process_input(m, Input::Key('u'), &mut e);
    assert_eq!(lines(&e.buffer), strs(&["xy"]));
}

#[test]
fn tab_types_spaces_to_the_next_stop() {
    let mut e = editor(b"abcdefg");
    Mode::process_input(Mode::Command, Input::Key('l'), &mut e);
    Mode::process_input(Mode::Command, Input::Key('l'), &mut e);
    let (m, _) = Mode::process_input(Mode::Command, Input::Key(TAB), &mut e);
    let (m, _) = Mode::process_input(m, Input::Key(TAB), &mut e);
    assert_eq!(m, Mode::Insert(InsertMode::Insert));
    assert_eq!(lines(&e.buffer), strs(&["ab  cdefg"]));
    assert_eq!(e.view.cursor, pos(4, 0));
    Mode::process_input(m, Input::Key(TAB), &mut e);
    assert_eq!(lines(&e.buffer), strs(&["ab      cdefg"]));
}

#[test]
fn interrupt_changes_nothing() {
    let mut e = editor(b"abc");
    Mode::process_input(Mode::Command, Input::Key('l'), &mut e);
    let before = lines(&e.buffer);
    let (m, _) = Mode::process_input(Mode::Insert(InsertMode::Replace), Input::Key(CTRL_C), &mut e);
    assert_eq!(m, Mode::Exit);
    assert_eq!(lines(&e.buffer), before);
    assert_eq!(e.view.cursor, pos(1, 0));
}

#[test]
fn insert_mode_keys() {
    let mut e = editor(b"ab\ncd");
    let (m, _) = Mode::process_input(Mode::Command, Input::Key(czl::input::CTRL_R), &mut e);
    let (m, _) = Mode::process_input(m, Input::Key('X'), &mut e);
    assert_eq!(lines(&e.buffer), strs(&["Xb", "cd"]));
    let (m, _) = Mode::process_input(m, Input::Key(ENTER), &mut e);
    assert_eq!(lines(&e.buffer), strs(&["X", "b", "cd"]));
    assert_eq!(e.view.cursor, pos(0, 1));
    let (m, _) = Mode::process_input(m, Input::Key(czl::input::DEL), &mut e);
    assert_eq!(lines(&e.buffer), strs(&["Xb", "cd"]));
    assert_eq!(e.view.cursor, pos(1, 0));
    Mode::process_input(m, Input::Key(czl::input::BACKSPACE), &mut e);
    assert_eq!(lines(&e.buffer), strs(&["Xcd"]));
}

#[test]
fn enter_at_line_end_in_command_mode() {
    let mut e = editor(b"abc\ndef");
    e.view.cursor = pos(3, 0);
    let (m, eff) = Mode::process_input(Mode::Command, Input::Key(ENTER), &mut e);
    assert_eq!((m, eff), (Mode::Command, Effect::Nothing));
    assert_eq!(lines(&e.buffer), strs(&["abc", "", "def"]));
    assert_eq!(e.view.cursor, pos(0, 1));
    Mode::process_input(Mode::Command, Input::Key('u'), &mut e);
    assert_eq!(lines(&e.buffer), strs(&["abc", "def"]));
    assert_eq!(e.view.cursor, pos(2, 0));
}

use czl::color::{Color, Colorcell};
use czl::draw::{Draw, Drawinfo, Framebuffer, Screen};
use czl::geometry::{pos, rec};
use czl::text::Buffer;
use czl::util::Debugconsole;

fn count(hay: &[u8], needle: &[u8]) -> usize {
    hay.windows(needle.len()).filter(|w| *w == needle).count()
}

#[test]
fn render_groups_runs_of_colors() {
    let mut f = Framebuffer::mk_framebuffer(pos(6, 1));
    f.put_line(pos(0, 0), b"abcdef");
    let a = Colorcell { fg: Color::Red, bg: Color::White };
    let b = Colorcell { fg: Color::Blue, bg: Color::White };
    let c = Colorcell { fg: Color::Red, bg: Color::Black };
    f.put_color(rec(0, 0, 3, 1), a);
    f.put_color(rec(3, 0, 5, 1), b);
    f.put_color(rec(5, 0, 6, 1), c);
    f.render();
    let out = f.output_bytes().to_vec();
    assert_eq!(count(&out, b"\x1b[38;5;"), 3);
    let expected = b"\x1b[?25l\x1b[H\x1b[38;5;1;48;5;7mabc\x1b[38;5;4;48;5;7mde\x1b[38;5;1;48;5;0mf\x1b[1;1H\x1b[?25h";
    assert_eq!(out, expected.to_vec());
}

#[test]
fn render_rows_and_cursor() {
    let mut f = Framebuffer::mk_framebuffer(pos(2, 2));
    f.set_cursor(pos(9, -3));
    f.render();
    let out = f.output_bytes().to_vec();
    let expected = b"\x1b[?25l\x1b[H\x1b[38;5;0;48;5;7m  \r\n\x1b[38;5;0;48;5;7m  \x1b[1;2H\x1b[?25h";
    assert_eq!(out, expected.to_vec());
}

#[test]
fn put_line_clips_at_row_end() {
    let mut f = Framebuffer::mk_framebuffer(pos(4, 2));
    f.put_line(pos(2, 1), b"xyz");
    f.render();
    let out = f.output_bytes().to_vec();
    assert_eq!(count(&out, b"  xy"), 1);
    assert_eq!(count(&out, b"z"), 0);
    f.clear();
    f.render();
    assert_eq!(count(f.output_bytes(), b"x"), 0);
}

#[test]
fn screen_layout_and_text() {
    let s = Screen::mk_screen(rec(0, 0, 12, 4));
    assert_eq!(s.header, rec(0, 0, 12, 1));
    assert_eq!(s.linenoarea, rec(0, 1, 5, 4));
    assert_eq!(s.textarea, rec(5, 1, 12, 4));
    let b = Buffer::from_text(b"one\ntwo".to_vec());
    let mut f = Framebuffer::mk_framebuffer(pos(12, 4));
    let info = Drawinfo {
        header: b"file",
        buffer: &b,
        buffer_offset: pos(0, 0),
        cursor: pos(6, 1),
        draw: Draw::All,
        relative_lineno: false,
        is_active: true,
    };
    s.put_text(&mut f, &info);
    f.render();
    let out = f.output_bytes().to_vec();
    assert_eq!(count(&out, b"file"), 1);
    assert_eq!(count(&out, b"one"), 1);
    assert_eq!(count(&out, b"two"), 1);
    assert_eq!(count(&out, b"   1"), 1);
    assert_eq!(count(&out, b"   2"), 1);
    assert_eq!(count(&out, b"   3"), 1);
    assert_eq!(count(&out, b"\x1b[3;12H"), 1);
}

#[test]
fn console_lines_show_in_frame() {
    let mut c = Debugconsole::mk_console(4, 2);
    c.log("hi");
    let mut f = Framebuffer::mk_framebuffer(pos(6, 3));
    f.dump_console(&c);
    f.render();
    assert_eq!(count(f.output_bytes(), b"hi  "), 1);
}

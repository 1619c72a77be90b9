use czl::color::{colorcode, conf, Color};
use czl::geometry::{pos, rec, Pos, Rec};
use czl::input::{is_printable, pull_input, Decoder, Input, DEL, ESC, RESIZE, TAB};
use czl::util::{clamp, copy, copy_exact, copyn, fill, i32, itoa10_left, itoa10_right, shift, subslice, usize, Debugconsole};

#[test]
fn rec_orders_corners() {
    let r = rec(5, 7, 1, 2);
    assert_eq!(r, Rec { min: pos(1, 2), max: pos(5, 7) });
    assert_eq!((r.w(), r.h(), r.area()), (4, 5, 20));
    assert_eq!(r.size(), pos(4, 5));
    assert!(r.contains(pos(5, 7)));
    assert!(!r.contains(pos(0, 3)));
}

#[test]
fn rec_splits_and_bands() {
    let r = rec(0, 0, 10, 4);
    assert_eq!(r.vsplit(1), (rec(0, 0, 10, 1), rec(0, 1, 10, 4)));
    assert_eq!(r.hsplit(3), (rec(0, 0, 3, 4), rec(3, 0, 10, 4)));
    assert_eq!(r.row(2), rec(0, 2, 10, 3));
    assert_eq!(r.column(9), rec(9, 0, 10, 4));
    assert_eq!(r.add(pos(1, 1)), rec(1, 1, 11, 5));
    assert_eq!(r.sub(pos(1, 1)), rec(-1, -1, 9, 3));
    assert_eq!((r.x0(), r.y0(), r.x1(), r.y1()), (0, 0, 10, 4));
}

#[test]
fn pos_arithmetic() {
    let p = pos(2, 3);
    assert_eq!(p.add(pos(1, -1)), pos(3, 2));
    assert_eq!(p.sub(pos(5, 5)), pos(-3, -2));
    assert_eq!(p.neg(), pos(-2, -3));
    assert_eq!(p.usize(), (2usize, 3usize));
    assert_eq!(p.rec(), Rec { min: pos(0, 0), max: p });
    assert_eq!(p.extrude(pos(1, 1)), rec(2, 3, 3, 4));
    let mut q = Pos { x: 1, y: 1 };
    q.add_assign(pos(2, 2));
    assert_eq!(q, pos(3, 3));
}

#[test]
fn decimal_left() {
    let mut buf = [9u8; 8];
    let n = itoa10_left(&mut buf, 1234);
    assert_eq!(&buf[..n], b"1234");
    assert_eq!(buf[n], 9);
    let n = itoa10_left(&mut buf, 0);
    assert_eq!(&buf[..n], b"0");
}

#[test]
fn decimal_right() {
    let mut buf = [0u8; 4];
    itoa10_right(&mut buf, 42, b' ');
    assert_eq!(&buf, b"  42");
    itoa10_right(&mut buf, -7, b' ');
    assert_eq!(&buf, b"  -7");
    itoa10_right(&mut buf, 0, b'.');
    assert_eq!(&buf, b"...0");
    itoa10_right(&mut buf, 123456, b' ');
    assert_eq!(&buf, b"3456");
    itoa10_right(&mut buf, -1234, b' ');
    assert_eq!(&buf, b"1234");
    itoa10_right(&mut buf, -123, b' ');
    assert_eq!(&buf, b"-123");
}

#[test]
fn slice_helpers() {
    let mut a = [0u8; 4];
    fill(&mut a, 7);
    assert_eq!(a, [7, 7, 7, 7]);
    copy(&mut a, &[1, 2]);
    assert_eq!(a, [1, 2, 7, 7]);
    copyn(&mut a, &[5, 6, 8], 1);
    assert_eq!(a, [5, 2, 7, 7]);
    copy_exact(&mut a, &[4, 3, 2, 1]);
    assert_eq!(a, [4, 3, 2, 1]);
    let s = [1, 2, 3, 4, 5];
    assert_eq!(clamp(&s, 2), &[1, 2]);
    assert_eq!(clamp(&s, 9), &s[..]);
    assert_eq!(shift(&s, 3), &[4, 5]);
    assert_eq!(shift(&s, 9), &[] as &[i32]);
    assert_eq!(subslice(&s, 1, 2), &[2, 3]);
    assert_eq!(subslice(&s, 4, 3), &[5]);
    assert_eq!((usize(3), i32(4)), (3usize, 4i32));
}

#[test]
fn console_ring() {
    let mut c = Debugconsole::mk_console(3, 2);
    c.log("abcd");
    c.log("x");
    c.log("yz");
    assert_eq!(c.get_line(0), b"yz ");
    assert_eq!(c.get_line(1), b"x  ");
    assert_eq!(c.next_entry, 3);
    c.clear();
    assert_eq!(c.next_entry, 0);
}

#[test]
fn color_codes() {
    assert_eq!(colorcode(Color::Black), 0);
    assert_eq!(colorcode(Color::BoldWhite), 15);
    assert_eq!(colorcode(Color::RGB216 { r: 1, g: 2, b: 3 }), 16 + 3 + 6 * (2 + 6));
    assert_eq!(colorcode(Color::Gray(14)), 246);
    assert_eq!(conf().tab_expansion, 4);
}

#[test]
fn printable_and_names() {
    assert!(is_printable('a'));
    assert!(is_printable(' '));
    assert!(!is_printable(DEL));
    assert!(!is_printable('\n'));
    assert_eq!(Input::key_descr(TAB), Some("TAB"));
    assert_eq!(Input::key_descr(ESC), Some("Esc"));
    assert_eq!(Input::key_descr('\x03'), Some("^C"));
    assert_eq!(Input::key_descr('q'), None);
}

fn decode(bytes: &[char], last_immediate_empty: bool) -> Option<Input> {
    let mut s = Decoder::Start;
    for &c in bytes {
        let (n, out) = pull_input(s, Some(c));
        if out.is_some() {
            return out;
        }
        s = n;
    }
    if last_immediate_empty && s.wants_immediate() {
        return pull_input(s, None).1;
    }
    None
}

#[test]
fn decode_keys_and_escapes() {
    assert_eq!(decode(&['k'], false), Some(Input::Key('k')));
    assert_eq!(decode(&[RESIZE], false), Some(Input::Resize));
    assert_eq!(decode(&[ESC], true), Some(Input::Key(ESC)));
    assert_eq!(decode(&[ESC, 'x'], false), Some(Input::UnknownEscSeq));
    assert_eq!(decode(&[ESC, '[', 'Z'], false), Some(Input::EscZ));
    assert_eq!(decode(&[ESC, '[', 'A'], false), Some(Input::UnknownEscSeq));
}

#[test]
fn decode_mouse() {
    assert_eq!(decode(&[ESC, '[', 'M', ' ', '!', '#'], false), Some(Input::Click(pos(0, 2))));
    assert_eq!(decode(&[ESC, '[', 'M', '#', '+', '!'], false), Some(Input::ClickRelease(pos(10, 0))));
    assert_eq!(decode(&[ESC, '[', 'M', '!', ' ', '\x00'], false), Some(Input::Click(pos(254, 222))));
}

#[test]
fn console_line_in_place() {
    let mut c = Debugconsole::mk_console(3, 2);
    c.get_line_mut(1).copy_from_slice(b"abc");
    assert_eq!(c.get_line(1), b"abc");
    assert_eq!(c.get_line(3), b"abc");
    assert_eq!(c.get_line(0), &[0u8, 0, 0]);
}

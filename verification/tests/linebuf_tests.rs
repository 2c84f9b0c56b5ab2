use rusty_pixels::world::linebuf::{LineBuf, LINE_BYTES};
use rusty_pixels::{HEIGHT, WIDTH};

fn pattern_frame() -> Vec<u8> {
    (0..LINE_BYTES * HEIGHT).map(|i| (i % 251) as u8).collect()
}

fn rows_of(buf: &LineBuf) -> Vec<u8> {
    let mut out = vec![7u8; LINE_BYTES * HEIGHT];
    buf.copy_to_frame(&mut out);
    out
}

#[test]
fn default_is_blank() {
    let mut buf = LineBuf::default();
    let lines = buf.lines_mut();
    assert_eq!(lines.len(), HEIGHT);
    assert!(lines.iter().all(|l| l.len() == LINE_BYTES && l.iter().all(|&b| b == 0)));
}

#[test]
fn plot_rgb_writes_one_opaque_pixel() {
    let mut buf = LineBuf::default();
    buf.plot_rgb(3, 2, 10, 20, 30);
    let frame = rows_of(&buf);
    let at = 2 * LINE_BYTES + 12;
    assert_eq!(&frame[at..at + 4], &[10, 20, 30, 255]);
    assert_eq!(frame.iter().filter(|&&b| b != 0).count(), 4);
}

#[test]
fn plot_rgba_and_fast_variants_agree() {
    let mut a = LineBuf::default();
    let mut b = LineBuf::default();
    a.plot_rgba(WIDTH - 1, HEIGHT - 1, 1, 2, 3, 4);
    b.plot_rgba_fast(WIDTH - 1, HEIGHT - 1, 1, 2, 3, 4);
    assert_eq!(rows_of(&a), rows_of(&b));
    a.plot_rgb(0, 0, 9, 8, 7);
    b.plot_rgb_fast(0, 0, 9, 8, 7);
    assert_eq!(rows_of(&a), rows_of(&b));
    let f = rows_of(&a);
    assert_eq!(&f[LINE_BYTES * HEIGHT - 4..], &[1, 2, 3, 4]);
    assert_eq!(&f[0..4], &[9, 8, 7, 255]);
}

#[test]
fn from_frame_then_copy_gives_frame_back() {
    let frame = pattern_frame();
    let mut buf = LineBuf::default();
    buf.from_frame(&frame);
    assert_eq!(rows_of(&buf), frame);
}

#[test]
fn from_short_frame_loads_whole_rows_only() {
    let frame: Vec<u8> = vec![5u8; LINE_BYTES + 10];
    let mut buf = LineBuf::default();
    buf.from_frame(&frame);
    let out = rows_of(&buf);
    assert!(out[..LINE_BYTES].iter().all(|&b| b == 5));
    assert!(out[LINE_BYTES..].iter().all(|&b| b == 0));
}

#[test]
fn copy_to_short_frame_keeps_the_tail() {
    let mut buf = LineBuf::default();
    buf.plot_rgb(0, 0, 1, 1, 1);
    let mut frame = vec![9u8; LINE_BYTES + 3];
    buf.copy_to_frame(&mut frame);
    assert_eq!(&frame[0..4], &[1, 1, 1, 255]);
    assert!(frame[4..LINE_BYTES].iter().all(|&b| b == 0));
    assert_eq!(&frame[LINE_BYTES..], &[9, 9, 9]);
}

#[test]
fn copy_line_to_copies_one_row() {
    let frame = pattern_frame();
    let mut buf = LineBuf::default();
    buf.from_frame(&frame);
    let mut line = vec![0u8; LINE_BYTES];
    buf.copy_line_to(7, &mut line);
    assert_eq!(&line[..], &frame[7 * LINE_BYTES..8 * LINE_BYTES]);
}

#[test]
fn decay_fades_each_byte_once() {
    let mut buf = LineBuf::default();
    buf.plot_rgba(1, 1, 0, 1, 2, 255);
    buf.decay();
    let f = rows_of(&buf);
    let at = LINE_BYTES + 4;
    assert_eq!(&f[at..at + 4], &[0, 0, 1, 254]);
    assert!(f[..at].iter().all(|&b| b == 0));
}

#[test]
fn scroll_down_moves_rows_and_wraps() {
    let mut buf = LineBuf::default();
    buf.plot_rgb(0, HEIGHT - 1, 1, 2, 3);
    buf.scroll(0, 1);
    let f = rows_of(&buf);
    assert_eq!(&f[0..4], &[1, 2, 3, 255]);
}

#[test]
fn scroll_left_turns_each_row() {
    let mut buf = LineBuf::default();
    buf.plot_rgb(0, 0, 1, 2, 3);
    buf.plot_rgb(5, 3, 4, 5, 6);
    buf.scroll(2, 0);
    let f = rows_of(&buf);
    let end = LINE_BYTES - 8;
    assert_eq!(&f[end..end + 4], &[1, 2, 3, 255]);
    let at = 3 * LINE_BYTES + 12;
    assert_eq!(&f[at..at + 4], &[4, 5, 6, 255]);
}

#[test]
fn scroll_right_and_up() {
    let mut buf = LineBuf::default();
    buf.plot_rgb(WIDTH - 1, 0, 1, 2, 3);
    buf.scroll(-1, -1);
    let f = rows_of(&buf);
    let at = (HEIGHT - 1) * LINE_BYTES;
    assert_eq!(&f[at..at + 4], &[1, 2, 3, 255]);
}

#[test]
fn scroll_then_reverse_restores() {
    let frame = pattern_frame();
    let mut buf = LineBuf::default();
    buf.from_frame(&frame);
    buf.scroll(17, -40);
    assert_ne!(rows_of(&buf), frame);
    buf.scroll(-17, 40);
    assert_eq!(rows_of(&buf), frame);
}

#[test]
fn scroll_by_full_extent_is_identity() {
    let frame = pattern_frame();
    let mut buf = LineBuf::default();
    buf.from_frame(&frame);
    buf.scroll(WIDTH as i32, HEIGHT as i32);
    assert_eq!(rows_of(&buf), frame);
}

#[test]
fn lines_mut_gives_the_rows() {
    let mut buf = LineBuf::default();
    buf.lines_mut()[2][9] = 42;
    let f = rows_of(&buf);
    assert_eq!(f[2 * LINE_BYTES + 9], 42);
}

#[test]
fn decay_fades_rows_of_any_length() {
    let mut buf = LineBuf::default();
    buf.lines_mut()[0] = vec![0, 1, 2];
    buf.lines_mut()[1].push(9);
    buf.decay();
    let mut row = vec![7u8; 3];
    buf.copy_line_to(0, &mut row);
    assert_eq!(row, vec![0, 0, 1]);
    let mut long = vec![0u8; LINE_BYTES + 1];
    buf.copy_line_to(1, &mut long);
    assert_eq!(long[LINE_BYTES], 8);
}

#[test]
fn plot_reaches_past_width_on_a_longer_row() {
    let mut buf = LineBuf::default();
    buf.lines_mut()[4].extend_from_slice(&[0; 8]);
    buf.plot_rgb(WIDTH + 1, 4, 1, 2, 3);
    buf.plot_rgba_fast(WIDTH, 4, 4, 5, 6, 7);
    let mut row = vec![0u8; LINE_BYTES + 8];
    buf.copy_line_to(4, &mut row);
    assert_eq!(&row[LINE_BYTES..], &[4, 5, 6, 7, 1, 2, 3, 255]);
}

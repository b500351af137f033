use mdout::style::Line;
use mdout::terminal::{detect_width, erase_live, width_or_default, Terminal};

fn line(t: &str, live: bool) -> Line {
    Line { text: t.to_string(), live }
}

#[test]
fn erase_sequence_for_n_lines() {
    assert_eq!(erase_live(0), "");
    assert_eq!(erase_live(3), "\u{1b}[3A\u{1b}[J");
}

#[test]
fn erase_sequence_for_many_lines() {
    assert_eq!(erase_live(12), "\u{1b}[12A\u{1b}[J");
}

#[test]
fn width_falls_back_when_unknown() {
    assert!(detect_width() >= 1);
}

#[test]
fn width_or_default_uses_80_for_unknown_or_zero() {
    assert_eq!(width_or_default(None), 80);
    assert_eq!(width_or_default(Some(0)), 80);
    assert_eq!(width_or_default(Some(132)), 132);
}

#[test]
fn piped_output_commits_stable_lines_once() {
    let mut t = Terminal::new(false);
    let f1 = vec![line("a", false), line("", false), line("b", true)];
    assert_eq!(t.draw(&f1), "a\n\n");
    let f2 = vec![line("a", false), line("", false), line("b c", false), line("", false), line("d", true)];
    assert_eq!(t.draw(&f2), "b c\n\n");
    let f3 = vec![line("a", false), line("", false), line("b c", false), line("", false), line("d e", false)];
    assert_eq!(t.finish(&f3), "d e\n");
}

#[test]
fn redraw_erases_and_rewrites_live_lines() {
    let mut t = Terminal::new(true);
    let f1 = vec![line("a", false), line("b", true), line("c", true)];
    assert_eq!(t.draw(&f1), "\u{1b}[?25la\nb\nc\n\u{1b}[?25h");
    let f2 = vec![line("a", false), line("b2", true)];
    assert_eq!(t.draw(&f2), "\u{1b}[?25l\u{1b}[2A\u{1b}[Jb2\n\u{1b}[?25h");
    let f3 = vec![line("a", false), line("b3", false)];
    assert_eq!(t.finish(&f3), "\u{1b}[?25l\u{1b}[1A\u{1b}[Jb3\n\u{1b}[?25h");
}

#[test]
fn piped_frames_then_finish_write_the_document_once() {
    let mut t = Terminal::new(false);
    let mut out = String::new();
    out.push_str(&t.draw(&[line("a", true)]));
    out.push_str(&t.draw(&[line("a", false), line("", false), line("b", true)]));
    out.push_str(&t.draw(&[line("a", false), line("", false), line("b c", true)]));
    out.push_str(&t.draw(&[line("a", false), line("", false), line("b c", false), line("", false), line("d", true)]));
    let doc = [line("a", false), line("", false), line("b c", false), line("", false), line("d e", false)];
    out.push_str(&t.finish(&doc));
    assert_eq!(out, "a\n\nb c\n\nd e\n");
    assert!(!out.contains('\u{1b}'));
}

#[test]
fn redraw_frames_always_show_the_cursor_again() {
    let mut t = Terminal::new(true);
    for frame in [vec![line("x", true)], vec![line("x", false), line("y", true)], vec![]] {
        let s = t.draw(&frame);
        assert!(s.starts_with("\u{1b}[?25l"));
        assert!(s.ends_with("\u{1b}[?25h"));
    }
    let s = t.finish(&[line("x", false), line("y", false)]);
    assert!(s.starts_with("\u{1b}[?25l") && s.ends_with("\u{1b}[?25h"));
}

#[test]
fn consecutive_piped_frames_write_the_last_stable_part() {
    let mut t = Terminal::new(false);
    let mut out = String::new();
    out.push_str(&t.draw(&[line("a", false), line("b", true)]));
    out.push_str(&t.draw(&[line("a", false), line("b", false), line("c", true)]));
    out.push_str(&t.draw(&[line("a", false), line("b", false), line("c2", true)]));
    assert_eq!(out, "a\nb\n");
}

use mdout::style::{ansi_start, encode_line, Span, Style};
use mdout::markdown::ColumnAlign;
use mdout::table::{quote_prefix, table_lines};
use mdout::width::{char_width, str_width};
use mdout::wrap::{coalesce, to_chars, wrap_widths, wrap_with_prefix};

fn st() -> Style {
    Style::default()
}

fn text_rows(rows: &[Vec<(char, Style)>]) -> Vec<String> {
    rows.iter().map(|r| r.iter().map(|(c, _)| *c).collect()).collect()
}

#[test]
fn widths_follow_unicode_width() {
    assert_eq!(char_width('a'), 1);
    assert_eq!(char_width('中'), 2);
    assert_eq!(char_width('\u{7}'), 0);
    assert_eq!(char_width('\u{301}'), 0);
    assert_eq!(str_width("中文ab"), 6);
    assert_eq!(str_width(""), 0);
}

#[test]
fn wrap_breaks_between_words_and_inside_long_words() {
    let chars: Vec<(char, Style)> = "  one  two\tthree abcdefgh ".chars().map(|c| (c, st())).collect();
    assert_eq!(text_rows(&wrap_widths(&chars, 7)), vec!["one two", "three", "abcdefg", "h"]);
    assert_eq!(text_rows(&wrap_widths(&[], 5)), vec![""]);
    let wide: Vec<(char, Style)> = "中文字".chars().map(|c| (c, st())).collect();
    assert_eq!(text_rows(&wrap_widths(&wide, 3)), vec!["中", "文", "字"]);
    assert_eq!(text_rows(&wrap_widths(&wide, 1)), vec!["中", "文", "字"]);
}

#[test]
fn wrap_keeps_visible_text_and_fits() {
    let text = "the quick brown fox jumps over a lazy dog 中文 混排";
    let chars: Vec<(char, Style)> = text.chars().map(|c| (c, st())).collect();
    for w in 1..20 {
        let rows = wrap_widths(&chars, w);
        let vis: String = rows.iter().flatten().map(|(c, _)| *c).filter(|c| !c.is_whitespace()).collect();
        let want: String = text.chars().filter(|c| !c.is_whitespace()).collect();
        assert_eq!(vis, want);
        for r in &rows {
            let cols: usize = r.iter().map(|(c, _)| char_width(*c)).sum();
            assert!(cols <= w || r.len() == 1, "row {r:?} at width {w}");
        }
    }
}

#[test]
fn coalesce_groups_styles_and_drops_newlines() {
    let bold = Style { bold: true, ..Style::default() };
    let chars = vec![('a', st()), ('\n', st()), ('b', st()), ('c', bold), ('d', bold), ('e', st())];
    let spans = coalesce(&chars);
    let got: Vec<(String, Style)> = spans.into_iter().map(|s| (s.text, s.style)).collect();
    assert_eq!(got, vec![("ab".to_string(), st()), ("cd".to_string(), bold), ("e".to_string(), st())]);
    let back = to_chars(&[Span { text: "ab".into(), style: bold }, Span { text: "c".into(), style: st() }]);
    assert_eq!(back, vec![('a', bold), ('b', bold), ('c', st())]);
}

#[test]
fn wrap_with_prefix_leads_rows_with_prefixes() {
    let content = vec![Span { text: "one two three".into(), style: st() }];
    let first = vec![Span { text: "• ".into(), style: st() }];
    let rest = vec![Span { text: "  ".into(), style: st() }];
    let rows = wrap_with_prefix(&content, &first, &rest, 8);
    let texts: Vec<String> = rows.iter().map(|r| r.iter().map(|s| s.text.as_str()).collect()).collect();
    assert_eq!(texts, vec!["• one", "  two", "  three"]);
}

#[test]
fn ansi_codes_in_fixed_order() {
    assert_eq!(ansi_start(Style::default()), "");
    let all = Style { bold: true, italic: true, strike: true, code: true, link: true, dim: true };
    assert_eq!(ansi_start(all), "\u{1b}[1;2;3;9;7;36m");
    assert_eq!(ansi_start(Style { code: true, ..Style::default() }), "\u{1b}[7m");
}

#[test]
fn encode_line_plain_and_colored() {
    let spans = vec![
        Span { text: "a".into(), style: st() },
        Span { text: "b".into(), style: Style { italic: true, ..st() } },
    ];
    assert_eq!(encode_line(&spans, false), "ab");
    assert_eq!(encode_line(&spans, true), "a\u{1b}[0m\u{1b}[3mb\u{1b}[0m");
    assert_eq!(encode_line(&[], true), "");
}

#[test]
fn table_layout_pads_missing_cells() {
    let rows = vec![vec!["k".to_string(), "v".to_string()], vec!["中a".to_string()]];
    let aligns = vec![ColumnAlign::Default; 3];
    let lines = table_lines(&aligns, &rows, 1);
    assert_eq!(
        lines,
        vec![
            "│ ┌─────┬───┬──┐",
            "│ │ k   │ v │  │",
            "│ ├─────┼───┼──┤",
            "│ │ 中a │   │  │",
            "│ └─────┴───┴──┘",
        ]
    );
    assert!(table_lines(&Vec::new(), &Vec::new(), 0).is_empty());
    assert_eq!(quote_prefix(2), "│ │ ");
}

#[test]
fn table_cells_follow_column_alignment() {
    let rows = vec![
        vec!["left".to_string(), "center".to_string(), "right".to_string()],
        vec!["a".to_string(), "b".to_string(), "c".to_string()],
    ];
    let aligns = vec![ColumnAlign::Left, ColumnAlign::Center, ColumnAlign::Right];
    let lines = table_lines(&aligns, &rows, 0);
    assert_eq!(lines[1], "│ left │ center │ right │");
    assert_eq!(lines[3], "│ a    │   b    │     c │");
}

#[test]
fn coalescing_drops_only_newlines_and_round_trips() {
    let bold = Style { bold: true, ..Style::default() };
    let chars = vec![('a', Style::default()), ('\n', bold), ('b', Style::default()), ('c', bold), ('d', bold)];
    let spans = coalesce(&chars);
    assert_eq!(spans.len(), 2);
    assert_eq!(spans[0].text, "ab");
    assert_eq!(spans[1].text, "cd");
    let back = to_chars(&spans);
    let kept: Vec<(char, Style)> = chars.iter().filter(|(c, _)| *c != '\n').cloned().collect();
    assert_eq!(back, kept);
    assert_eq!(coalesce(&back), spans);
}

#[test]
fn stripping_escape_sequences_gives_the_text() {
    let bold = Style { bold: true, ..Style::default() };
    let link = Style { link: true, dim: true, ..Style::default() };
    let spans = vec![
        Span { text: "a".to_string(), style: Style::default() },
        Span { text: "b".to_string(), style: bold },
        Span { text: "c".to_string(), style: bold },
        Span { text: "m[0".to_string(), style: link },
    ];
    let enc = encode_line(&spans, true);
    assert_eq!(enc, "a\u{1b}[0m\u{1b}[1mbc\u{1b}[0m\u{1b}[2;36mm[0\u{1b}[0m");
    let mut stripped = String::new();
    let mut rest = enc.as_str();
    while let Some(p) = rest.find('\u{1b}') {
        stripped.push_str(&rest[..p]);
        let q = rest[p..].find('m').unwrap();
        rest = &rest[p + q + 1..];
    }
    stripped.push_str(rest);
    assert_eq!(stripped, "abcm[0");
    let plain = vec![Span { text: "x".to_string(), style: Style::default() }];
    assert_eq!(encode_line(&plain, true), "x");
}

#[test]
fn wrapped_rows_are_single_spaced_and_greedy() {
    let chars: Vec<(char, Style)> = "  one   two\tthree  four ".chars().map(|c| (c, Style::default())).collect();
    let rows = wrap_widths(&chars, 9);
    let texts: Vec<String> = rows.iter().map(|r| r.iter().map(|(c, _)| *c).collect()).collect();
    assert_eq!(texts, vec!["one two", "three", "four"]);
    let rows = wrap_widths(&chars, 14);
    let texts: Vec<String> = rows.iter().map(|r| r.iter().map(|(c, _)| *c).collect()).collect();
    assert_eq!(texts, vec!["one two three", "four"]);
}

#[test]
fn encoded_line_ends_with_reset_exactly_when_last_style_is_not_plain() {
    let bold = Style { bold: true, ..Style::default() };
    let sp = |t: &str, st: Style| Span { text: t.to_string(), style: st };
    assert_eq!(
        encode_line(&[sp("a", Style::default()), sp("b", bold), sp("c", bold)], true),
        "a\u{1b}[0m\u{1b}[1mbc\u{1b}[0m"
    );
    assert!(encode_line(&[sp("a", bold)], true).ends_with("\u{1b}[0m"));
    assert!(!encode_line(&[sp("a", bold), sp("x", Style::default())], true).ends_with("\u{1b}[0m"));
    assert!(!encode_line(&[sp("a", bold), sp("[0m", Style::default())], true).ends_with("\u{1b}[0m"));
}

use mdout::renderer::{ends_with_blank, render, RenderOpts};

fn opts(color: bool, width: usize) -> RenderOpts {
    RenderOpts::new(color, width, false, "base16-ocean.dark")
}

fn plain(md: &str, width: usize) -> Vec<String> {
    render(md, &opts(false, width), true).into_iter().map(|l| l.text).collect()
}

#[test]
fn renders_paragraph_plain() {
    assert_eq!(plain("hello world", 80), vec!["hello world"]);
}

#[test]
fn renders_emphasis_and_code_plain() {
    assert_eq!(plain("a *b* **c** `d`", 80), vec!["a b c d"]);
}

#[test]
fn renders_heading_with_underline() {
    assert_eq!(plain("# Title", 80), vec!["Title", "═════"]);
    assert_eq!(plain("## Sub", 80), vec!["Sub", "───"]);
    assert_eq!(plain("### Deep", 80), vec!["### Deep"]);
}

#[test]
fn renders_link_with_url() {
    assert_eq!(plain("[x](http://e.com)", 80), vec!["x (http://e.com)"]);
}

#[test]
fn wraps_long_paragraph() {
    let out = plain("one two three four", 7);
    assert_eq!(out, vec!["one two", "three", "four"]);
}

#[test]
fn color_mode_emits_ansi() {
    let out = render("**bold**", &opts(true, 80), true);
    assert!(out[0].text.contains("\u{1b}[1m"));
    assert!(out[0].text.contains("\u{1b}[0m"));
}

#[test]
fn blank_line_separates_top_level_blocks() {
    assert_eq!(plain("a\n\nb", 80), vec!["a", "", "b"]);
}

#[test]
fn nested_tight_list_keeps_structure() {
    assert_eq!(plain("- a\n  - b", 80), vec!["• a", "  • b"]);
}

#[test]
fn heading_inside_blockquote_keeps_prefix() {
    assert_eq!(plain("> # Hi", 80), vec!["│ Hi", "│ ══"]);
}

#[test]
fn renders_unordered_and_ordered_lists() {
    assert_eq!(plain("- a\n- b", 80), vec!["• a", "• b"]);
    assert_eq!(plain("1. a\n2. b", 80), vec!["1. a", "2. b"]);
    assert_eq!(plain("7. a\n8. b", 80), vec!["7. a", "8. b"]);
}

#[test]
fn renders_task_list() {
    assert_eq!(plain("- [x] done\n- [ ] todo", 80), vec!["☑ done", "☐ todo"]);
}

#[test]
fn renders_blockquote_prefix() {
    assert_eq!(plain("> quoted", 80), vec!["│ quoted"]);
}

#[test]
fn renders_horizontal_rule() {
    assert_eq!(plain("---", 5), vec!["─────"]);
}

#[test]
fn list_continuation_is_indented() {
    assert_eq!(plain("- one two three", 8), vec!["• one", "  two", "  three"]);
}

#[test]
fn renders_code_block_indented_plain() {
    assert_eq!(plain("```\nfn main() {}\n```", 80), vec!["    fn main() {}"]);
    assert_eq!(plain("```\na\n\nb\n```", 80), vec!["    a", "    ", "    b"]);
}

#[test]
fn renders_table_borders_plain() {
    let md = "| a | b |\n| - | - |\n| 1 | 2 |";
    assert_eq!(
        plain(md, 80),
        vec!["┌───┬───┐", "│ a │ b │", "├───┼───┤", "│ 1 │ 2 │", "└───┴───┘"]
    );
}

#[test]
fn cjk_table_columns_align() {
    let md = "| 名称 | value |\n| --- | --- |\n| 中文 | abc |";
    assert_eq!(
        plain(md, 80),
        vec![
            "┌──────┬───────┐",
            "│ 名称 │ value │",
            "├──────┼───────┤",
            "│ 中文 │ abc   │",
            "└──────┴───────┘",
        ]
    );
}

#[test]
fn hard_break_and_soft_break() {
    assert_eq!(plain("a\nb", 80), vec!["a b"]);
    assert_eq!(plain("a  \nb", 80), vec!["a", "b"]);
}

#[test]
fn last_block_is_live_until_blank_line() {
    let o = opts(false, 80);
    let lines = render("hello", &o, false);
    assert!(lines.iter().all(|l| l.live));
    let lines = render("hello\n\n", &o, false);
    assert!(lines.iter().all(|l| !l.live));
    let lines = render("a\n\nb", &o, false);
    assert_eq!(lines.iter().map(|l| l.live).collect::<Vec<_>>(), vec![false, false, true]);
}

#[test]
fn final_flush_marks_everything_stable() {
    let o = opts(false, 80);
    let lines = render("hello", &o, true);
    assert!(lines.iter().all(|l| !l.live));
}

#[test]
fn chunk_boundary_invariance() {
    let md = "# 标题\n\n这是 **中文** 段落。\n\n- a\n- b\n\n```rust\nfn main() {}\n```\n";
    let o = opts(false, 40);
    let expected = render(md, &o, true);
    for (i, _) in md.char_indices() {
        let prefix = &md[..i];
        let _ = render(prefix, &o, false);
    }
    assert_eq!(render(md, &o, true), expected);
}

#[test]
fn live_split_keeps_text() {
    let o = opts(true, 20);
    let md = "# A\n\nsome *text* here\nand more";
    let a: Vec<String> = render(md, &o, false).into_iter().map(|l| l.text).collect();
    let b: Vec<String> = render(md, &o, true).into_iter().map(|l| l.text).collect();
    assert_eq!(a, b);
}

#[test]
fn colored_styles_reset_between_spans() {
    let out = render("a **b** c", &opts(true, 80), true);
    assert_eq!(out[0].text, "a \u{1b}[0m\u{1b}[1mb\u{1b}[0m c");
    let out = render("***x***", &opts(true, 80), true);
    assert_eq!(out[0].text, "\u{1b}[0m\u{1b}[1;3mx\u{1b}[0m");
}

#[test]
fn link_url_is_dimmed_in_color() {
    let out = render("[x](u)", &opts(true, 80), true);
    assert_eq!(out[0].text, "\u{1b}[0m\u{1b}[36mx\u{1b}[0m \u{1b}[0m\u{1b}[2m(u)\u{1b}[0m");
}

#[test]
fn plain_output_has_no_escape() {
    let out = plain("# Hi\n\ntext **bold** `c` ~~s~~ [l](u)\n\n> q\n\n---", 30);
    assert!(out.iter().all(|l| !l.contains('\u{1b}')));
}

#[test]
fn width_is_at_least_one() {
    assert_eq!(opts(false, 0).width(), 1);
    assert_eq!(plain("ab cd", 0), vec!["a", "b", "c", "d"]);
}

#[test]
fn ends_with_blank_cases() {
    assert!(ends_with_blank(""));
    assert!(ends_with_blank(" \t "));
    assert!(ends_with_blank("a\n\n"));
    assert!(ends_with_blank("a\n\n  \t"));
    assert!(!ends_with_blank("a\n"));
    assert!(!ends_with_blank("a"));
    assert!(!ends_with_blank("a\n \n"));
}

#[test]
fn applies_column_alignment() {
    let md = "| left | center | right |\n| :--- | :---: | ---: |\n| a | b | c |";
    let out = plain(md, 80);
    assert_eq!(out[3], "│ a    │   b    │     c │");
}

#[test]
fn plain_item_after_task_item_gets_bullet() {
    assert_eq!(plain("- [x] a\n- b", 80), vec!["☑ a", "• b"]);
    assert_eq!(plain("- a\n- [ ] b\n- c", 80), vec!["• a", "☐ b", "• c"]);
}

#[test]
fn highlighted_code_uses_ansi() {
    let o = RenderOpts::new(true, 80, true, "base16-ocean.dark");
    let out = render("```rust\nfn main() {}\n```", &o, true);
    assert!(out.iter().any(|l| l.text.contains("\u{1b}[38;2;")));
    assert!(out[0].text.starts_with("    "));
    assert!(!out[0].text.ends_with('\n'));
    assert_eq!(out.len(), 1);
}

#[test]
fn no_highlight_option_keeps_plain() {
    let o = RenderOpts::new(true, 80, false, "base16-ocean.dark");
    let out = render("```rust\nfn main() {}\n```", &o, true);
    assert!(!out.iter().any(|l| l.text.contains("\u{1b}[38;2;")));
    assert_eq!(out[0].text, "    fn main() {}");
}

#[test]
fn highlighting_needs_colors() {
    let o = RenderOpts::new(false, 80, true, "base16-ocean.dark");
    let out = render("```rust\nfn main() {}\n\nlet x = 1;\n```", &o, true);
    let texts: Vec<String> = out.into_iter().map(|l| l.text).collect();
    assert_eq!(texts, vec!["    fn main() {}", "    ", "    let x = 1;"]);
}

#[test]
fn highlighted_code_keeps_line_structure() {
    let o = RenderOpts::new(true, 80, true, "base16-ocean.dark");
    let out = render("> ```python\n> a = 1\n>\n> b = 2\n> ```", &o, true);
    assert_eq!(out.len(), 3);
    assert!(out.iter().all(|l| l.text.starts_with("│     ")));
}

#[test]
fn unknown_language_is_highlighted_as_plain_text() {
    let o = RenderOpts::new(true, 80, true, "base16-ocean.dark");
    let out = render("```nosuchlang\nlet x = 1;\n```", &o, true);
    assert_eq!(out.len(), 1);
    assert!(out[0].text.starts_with("    \u{1b}[38;2;"));
    assert!(out[0].text.ends_with("let x = 1;"));
}

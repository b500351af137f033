use mdout::renderer::{render, RenderOpts};
use mdout::themes::theme_choice;
use syntect::easy::HighlightLines;
use syntect::highlighting::{Theme, ThemeSet};
use syntect::parsing::SyntaxSet;
use syntect::util::as_24_bit_terminal_escaped;

/// The code line `fn main() {}` as syntect highlights it with the Rust syntax and
/// the built-in theme of this name.
fn syntect_line(theme: &str) -> String {
    let ss = SyntaxSet::load_defaults_newlines();
    let ts = ThemeSet::load_defaults();
    let mut h = HighlightLines::new(ss.find_syntax_by_token("rust").unwrap(), &ts.themes[theme]);
    let ranges = h.highlight_line("fn main() {}\n", &ss).unwrap();
    let mut s = as_24_bit_terminal_escaped(&ranges[..], false);
    while s.ends_with('\n') {
        s.pop();
    }
    format!("    {s}")
}

fn rendered_line(theme: &str) -> String {
    let o = RenderOpts::new(true, 80, true, theme);
    render("```rust\nfn main() {}\n```", &o, true).remove(0).text
}

#[test]
fn documented_theme_is_taken_as_asked() {
    let o = RenderOpts::new(false, 80, true, "Solarized (dark)");
    assert_eq!(o.theme_name(), "Solarized (dark)");
    assert_eq!(rendered_line("Solarized (dark)"), syntect_line("Solarized (dark)"));
}

#[test]
fn unknown_theme_falls_back_to_base16_ocean_dark() {
    let o = RenderOpts::new(false, 80, true, "no such theme");
    assert_eq!(o.theme_name(), "base16-ocean.dark");
    assert_eq!(rendered_line("no such theme"), syntect_line("base16-ocean.dark"));
}

#[test]
fn zero_width_is_raised_to_one() {
    let o = RenderOpts::new(true, 0, false, "InspiredGitHub");
    assert_eq!(o.width(), 1);
    assert!(o.color());
    assert!(!o.highlight());
    assert_eq!(o.theme_name(), "InspiredGitHub");
}

#[test]
fn first_theme_is_taken_without_fallback() {
    let mut ts = ThemeSet::new();
    ts.themes.insert("zeta".to_string(), Theme::default());
    ts.themes.insert("alpha".to_string(), Theme::default());
    assert_eq!(theme_choice(&ts, "missing"), "alpha");
    assert_eq!(theme_choice(&ts, "zeta"), "zeta");
}

#[test]
fn fallback_preferred_over_first_theme() {
    let mut ts = ThemeSet::new();
    ts.themes.insert("alpha".to_string(), Theme::default());
    ts.themes.insert("base16-ocean.dark".to_string(), Theme::default());
    assert_eq!(theme_choice(&ts, "missing"), "base16-ocean.dark");
}

#[test]
fn built_in_theme_names_are_the_documented_ones() {
    let ts = ThemeSet::load_defaults();
    let names: Vec<&str> = ts.themes.keys().map(|k| k.as_str()).collect();
    assert_eq!(
        names,
        vec![
            "InspiredGitHub",
            "Solarized (dark)",
            "Solarized (light)",
            "base16-eighties.dark",
            "base16-mocha.dark",
            "base16-ocean.dark",
            "base16-ocean.light",
        ]
    );
}

#[test]
fn code_is_highlighted_with_the_named_theme() {
    assert_eq!(rendered_line("InspiredGitHub"), syntect_line("InspiredGitHub"));
    assert_ne!(rendered_line("InspiredGitHub"), rendered_line("base16-ocean.dark"));
}

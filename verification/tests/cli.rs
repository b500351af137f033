use mdout::cli::{parse_args, parse_usize, use_color, ColorMode, Config, USAGE};

fn p(args: &[&str]) -> Result<Config, String> {
    parse_args(args.iter().map(|s| s.to_string()).collect())
}

#[test]
fn defaults_are_auto_theme_and_highlight() {
    let c = p(&[]).unwrap();
    assert_eq!(c.color, ColorMode::Auto);
    assert_eq!(c.width, None);
    assert_eq!(c.theme, "base16-ocean.dark");
    assert!(c.highlight);
}

#[test]
fn parses_color_space_form() {
    assert_eq!(p(&["--color", "never"]).unwrap().color, ColorMode::Never);
    assert_eq!(p(&["--color", "always"]).unwrap().color, ColorMode::Always);
}

#[test]
fn parses_equals_form() {
    assert_eq!(p(&["--width=50"]).unwrap().width, Some(50));
    assert_eq!(p(&["--color=always"]).unwrap().color, ColorMode::Always);
    assert_eq!(p(&["--theme=InspiredGitHub"]).unwrap().theme, "InspiredGitHub");
}

#[test]
fn parses_no_highlight_and_flags() {
    let c = p(&["--no-highlight", "-h"]).unwrap();
    assert!(!c.highlight);
    assert!(c.help);
    assert!(p(&["-V"]).unwrap().version);
}

#[test]
fn rejects_unknown_and_bad_values() {
    assert!(p(&["--nope"]).is_err());
    assert!(p(&["--color", "blue"]).is_err());
    assert!(p(&["--width", "abc"]).is_err());
    assert!(p(&["--width"]).is_err());
}

#[test]
fn error_messages_name_the_bad_argument() {
    assert_eq!(p(&["--nope"]).unwrap_err(), "unknown argument: --nope");
    assert_eq!(p(&["--nope=1"]).unwrap_err(), "unknown argument: --nope");
    assert_eq!(p(&["--color", "blue"]).unwrap_err(), "invalid color: blue");
    assert_eq!(p(&["--width=abc"]).unwrap_err(), "invalid width: abc");
    assert_eq!(p(&["--theme"]).unwrap_err(), "missing value for --theme");
    assert_eq!(p(&["--color"]).unwrap_err(), "missing value for --color");
}

#[test]
fn later_options_override_earlier_and_values_may_hold_equals() {
    let c = p(&["--color=never", "--color", "auto", "--width", "+7", "--theme=a=b", "--version"]).unwrap();
    assert_eq!(c.color, ColorMode::Auto);
    assert_eq!(c.width, Some(7));
    assert_eq!(c.theme, "a=b");
    assert!(c.version);
    assert!(!c.help);
}

#[test]
fn separate_value_is_taken_even_if_it_looks_like_an_option() {
    let c = p(&["--theme", "--help"]).unwrap();
    assert_eq!(c.theme, "--help");
    assert!(!c.help);
}

#[test]
fn usize_parsing_follows_std() {
    for s in ["0", "42", "+42", "007", "18446744073709551615", "", "+", "-1", " 1", "1 ", "1_0", "18446744073709551616", "99999999999999999999999"] {
        assert_eq!(parse_usize(s), s.parse::<usize>().ok(), "input {s:?}");
    }
}

#[test]
fn usage_names_every_option() {
    for opt in ["--color", "--width", "--theme", "--no-highlight", "--help", "--version"] {
        assert!(USAGE.contains(opt));
    }
    assert!(USAGE.starts_with("Usage: mdout"));
}

#[test]
fn explicit_color_beats_no_color() {
    assert!(use_color(ColorMode::Always, false, true));
    assert!(!use_color(ColorMode::Never, true, false));
    assert!(use_color(ColorMode::Auto, true, false));
    assert!(!use_color(ColorMode::Auto, true, true));
    assert!(!use_color(ColorMode::Auto, false, false));
}

#[test]
fn parse_fails_exactly_on_a_bad_argument() {
    assert!(p(&["--theme", "x", "-V", "--no-highlight", "--width=+3"]).is_ok());
    assert!(p(&["--width"]).is_err());
    assert!(p(&["--color", "auto", "--color=sometimes"]).is_err());
    assert!(p(&["--width", "-1"]).is_err());
    assert!(p(&["-h", "extra"]).is_err());
    assert!(p(&["--help=yes"]).is_ok());
}

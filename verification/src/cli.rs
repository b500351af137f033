//! Command-line arguments: `--color auto|always|never`, `--width N`, `--theme NAME`,
//! `--no-highlight`, `-h|--help`, `-V|--version`; a value follows its option or is
//! attached with `=`.

use vstd::prelude::*;
use crate::text::{chars_of, find_char, find_from, push_str, string_of_range};

verus! {

/// The usage line.
pub const USAGE: &'static str = "Usage: mdout [--color auto|always|never] [--width N] [--theme NAME] [--no-highlight] [-h|--help] [-V|--version]";

/// When to emit colors.
#[derive(Debug, Clone, Copy, PartialEq, Eq, Structural)]
pub enum ColorMode {
    Auto,
    Always,
    Never,
}

/// The parsed command line.
#[derive(Debug, Clone, PartialEq, Eq)]
pub struct Config {
    pub color: ColorMode,
    pub width: Option<usize>,
    pub theme: String,
    pub highlight: bool,
    pub help: bool,
    pub version: bool,
}

/// The parsed command line as plain values.
#[verifier::ext_equal]
pub struct ConfigV {
    pub color: ColorMode,
    pub width: Option<usize>,
    pub theme: Seq<char>,
    pub highlight: bool,
    pub help: bool,
    pub version: bool,
}

/// The view of a `Config`.
pub open spec fn config_v(c: Config) -> ConfigV {
    ConfigV { color: c.color, width: c.width, theme: c.theme@, highlight: c.highlight, help: c.help, version: c.version }
}

/// Colors chosen automatically, width detected, the `base16-ocean.dark` theme,
/// highlighting on, neither help nor version asked for.
pub open spec fn default_config() -> ConfigV {
    ConfigV { color: ColorMode::Auto, width: None, theme: "base16-ocean.dark"@, highlight: true, help: false, version: false }
}

/// Value of a sequence of decimal digits.
pub open spec fn digits_value(d: Seq<char>) -> nat
    decreases d.len(),
{
    if d.len() == 0 {
        0
    } else {
        digits_value(d.drop_last()) * 10 + ((d.last() as u32) - ('0' as u32)) as nat
    }
}

/// An ASCII digit.
pub open spec fn is_digit(c: char) -> bool {
    '0' <= c && c <= '9'
}

/// The text after an optional leading `+`.
pub open spec fn unsigned_digits(s: Seq<char>) -> Seq<char> {
    if s.len() > 0 && s[0] == '+' { s.drop_first() } else { s }
}

/// Every character is an ASCII digit.
pub open spec fn all_digits(d: Seq<char>) -> bool {
    forall|i: int| 0 <= i < d.len() ==> is_digit(#[trigger] d[i])
}

/// `usize` from decimal text, as `str::parse::<usize>` documents it: an optional
/// `+`, then one or more ASCII digits, the value fitting in `usize`.
pub open spec fn spec_parse_usize(s: Seq<char>) -> Option<usize> {
    let d = unsigned_digits(s);
    if d.len() > 0 && all_digits(d) && digits_value(d) <= usize::MAX {
        Some(digits_value(d) as usize)
    } else {
        None
    }
}

proof fn lemma_digits_value_mono(d: Seq<char>, k: int)
    requires
        0 <= k <= d.len(),
        forall|i: int| 0 <= i < d.len() ==> is_digit(#[trigger] d[i]),
    ensures
        digits_value(d.take(k)) <= digits_value(d),
    decreases d.len() - k,
{
    if k < d.len() {
        lemma_digits_value_mono(d, k + 1);
        assert(d.take(k + 1).drop_last() == d.take(k));
    } else {
        assert(d.take(k) == d);
    }
}

/// Parses a decimal `usize`; see `spec_parse_usize`.
pub fn parse_usize(s: &str) -> (r: Option<usize>)
    ensures
        r == spec_parse_usize(s@),
{
    let c = chars_of(s);
    let mut i: usize = 0;
    if c.len() > 0 && c[0] == '+' {
        i = 1;
    }
    let ghost d = unsigned_digits(s@);
    assert(d == c@.skip(i as int));
    if i >= c.len() {
        return None;
    }
    let start = i;
    let mut v: usize = 0;
    while i < c.len()
        invariant
            start <= i <= c.len(),
            c@ == s@,
            d == unsigned_digits(s@),
            d == c@.skip(start as int),
            forall|j: int| 0 <= j < i - start ==> is_digit(#[trigger] d[j]),
            v == digits_value(d.take(i - start)),
        decreases c.len() - i,
    {
        let ch = c[i];
        assert(d[i - start] == c@[i as int]);
        if !('0' <= ch && ch <= '9') {
            assert(!is_digit(d[i - start]));
            assert(!all_digits(d));
            assert(spec_parse_usize(s@) is None);
            return None;
        }
        assert(d.take(i - start + 1).drop_last() == d.take(i - start));
        assert(d.take(i - start + 1).last() == ch);
        assert(digits_value(d.take(i - start + 1)) == v * 10 + (ch as u32 - '0' as u32));
        let dig = (ch as u32 - '0' as u32) as usize;
        let m = v.checked_mul(10);
        match m {
            None => {
                proof {
                    assert(v * 10 > usize::MAX);
                    if all_digits(d) {
                        lemma_digits_value_mono(d, i - start + 1);
                        assert(digits_value(d) > usize::MAX);
                    }
                }
                assert(spec_parse_usize(s@) is None);
                return None;
            },
            Some(m) => {
                match m.checked_add(dig) {
                    None => {
                        proof {
                            if all_digits(d) {
                                lemma_digits_value_mono(d, i - start + 1);
                                assert(digits_value(d) > usize::MAX);
                            }
                        }
                        assert(spec_parse_usize(s@) is None);
                        return None;
                    },
                    Some(n) => {
                        v = n;
                    },
                }
            },
        }
        i += 1;
    }
    assert(d.take(i - start) == d);
    Some(v)
}

/// An argument split at its first `=`: the key and the attached value.
pub open spec fn split_key(arg: Seq<char>) -> (Seq<char>, Option<Seq<char>>) {
    match find_char(arg, '=') {
        Some(k) => (arg.take(k), Some(arg.skip(k + 1))),
        None => (arg, None),
    }
}

/// The options that take a value.
pub open spec fn takes_value(key: Seq<char>) -> bool {
    key == "--color"@ || key == "--width"@ || key == "--theme"@
}

/// The configuration after the remaining arguments, or the error message of the
/// first bad one: a missing value, an invalid color or width, an unknown option.
pub open spec fn spec_parse_from(cfg: ConfigV, args: Seq<Seq<char>>) -> Result<ConfigV, Seq<char>>
    decreases args.len(),
{
    if args.len() == 0 {
        Ok(cfg)
    } else {
        let (key, inline) = split_key(args[0]);
        let rest = args.drop_first();
        if takes_value(key) {
            let (val, rest2) = match inline {
                Some(v) => (Some(v), rest),
                None => if rest.len() > 0 { (Some(rest[0]), rest.drop_first()) } else { (None, rest) },
            };
            match val {
                None => Err("missing value for "@ + key),
                Some(v) => if key == "--color"@ {
                    if v == "auto"@ {
                        spec_parse_from(ConfigV { color: ColorMode::Auto, ..cfg }, rest2)
                    } else if v == "always"@ {
                        spec_parse_from(ConfigV { color: ColorMode::Always, ..cfg }, rest2)
                    } else if v == "never"@ {
                        spec_parse_from(ConfigV { color: ColorMode::Never, ..cfg }, rest2)
                    } else {
                        Err("invalid color: "@ + v)
                    }
                } else if key == "--width"@ {
                    match spec_parse_usize(v) {
                        Some(n) => spec_parse_from(ConfigV { width: Some(n), ..cfg }, rest2),
                        None => Err("invalid width: "@ + v),
                    }
                } else {
                    spec_parse_from(ConfigV { theme: v, ..cfg }, rest2)
                },
            }
        } else if key == "--no-highlight"@ {
            spec_parse_from(ConfigV { highlight: false, ..cfg }, rest)
        } else if key == "-h"@ || key == "--help"@ {
            spec_parse_from(ConfigV { help: true, ..cfg }, rest)
        } else if key == "-V"@ || key == "--version"@ {
            spec_parse_from(ConfigV { version: true, ..cfg }, rest)
        } else {
            Err("unknown argument: "@ + key)
        }
    }
}

/// A value that the option `key` accepts: `auto`, `always` or `never` for
/// `--color`, a decimal `usize` for `--width`, anything for `--theme`.
pub open spec fn value_ok(key: Seq<char>, v: Seq<char>) -> bool {
    if key == "--color"@ {
        v == "auto"@ || v == "always"@ || v == "never"@
    } else if key == "--width"@ {
        spec_parse_usize(v) is Some
    } else {
        true
    }
}

/// An option that takes no value.
pub open spec fn known_flag(key: Seq<char>) -> bool {
    key == "--no-highlight"@ || key == "-h"@ || key == "--help"@ || key == "-V"@ || key == "--version"@
}

/// The arguments, read left to right (the key of each before its first `=`), are
/// all accepted: every key is a known option; an option that takes a value has
/// one, inline after `=` or else the next argument, and accepts it.
pub open spec fn args_ok(args: Seq<Seq<char>>) -> bool
    decreases args.len(),
{
    if args.len() == 0 {
        true
    } else {
        let (key, inline) = split_key(args[0]);
        let rest = args.drop_first();
        if takes_value(key) {
            match inline {
                Some(v) => value_ok(key, v) && args_ok(rest),
                None => rest.len() > 0 && value_ok(key, rest[0]) && args_ok(rest.drop_first()),
            }
        } else {
            known_flag(key) && args_ok(rest)
        }
    }
}

/// Parsing fails exactly when some argument is not accepted (see `args_ok`),
/// whatever configuration it starts from.
pub proof fn lemma_parse_fails_iff_bad_argument(cfg: ConfigV, args: Seq<Seq<char>>)
    ensures
        spec_parse_from(cfg, args) is Ok <==> args_ok(args),
    decreases args.len(),
{
    if args.len() > 0 {
        let (key, inline) = split_key(args[0]);
        let rest = args.drop_first();
        if takes_value(key) {
            match inline {
                Some(v) => {
                    lemma_parse_fails_iff_bad_argument(ConfigV { color: ColorMode::Auto, ..cfg }, rest);
                    lemma_parse_fails_iff_bad_argument(ConfigV { color: ColorMode::Always, ..cfg }, rest);
                    lemma_parse_fails_iff_bad_argument(ConfigV { color: ColorMode::Never, ..cfg }, rest);
                    if let Some(n) = spec_parse_usize(v) {
                        lemma_parse_fails_iff_bad_argument(ConfigV { width: Some(n), ..cfg }, rest);
                    }
                    lemma_parse_fails_iff_bad_argument(ConfigV { theme: v, ..cfg }, rest);
                },
                None => {
                    if rest.len() > 0 {
                        let v = rest[0];
                        let rest2 = rest.drop_first();
                        lemma_parse_fails_iff_bad_argument(ConfigV { color: ColorMode::Auto, ..cfg }, rest2);
                        lemma_parse_fails_iff_bad_argument(ConfigV { color: ColorMode::Always, ..cfg }, rest2);
                        lemma_parse_fails_iff_bad_argument(ConfigV { color: ColorMode::Never, ..cfg }, rest2);
                        if let Some(n) = spec_parse_usize(v) {
                            lemma_parse_fails_iff_bad_argument(ConfigV { width: Some(n), ..cfg }, rest2);
                        }
                        lemma_parse_fails_iff_bad_argument(ConfigV { theme: v, ..cfg }, rest2);
                    }
                },
            }
        } else {
            lemma_parse_fails_iff_bad_argument(ConfigV { highlight: false, ..cfg }, rest);
            lemma_parse_fails_iff_bad_argument(ConfigV { help: true, ..cfg }, rest);
            lemma_parse_fails_iff_bad_argument(ConfigV { version: true, ..cfg }, rest);
        }
    }
}

/// Whether the characters equal those of `lit`.
fn eq_lit(v: &Vec<char>, lit: &str) -> (b: bool)
    ensures
        b == (v@ == lit@),
{
    let l = chars_of(lit);
    if v.len() != l.len() {
        return false;
    }
    let mut i: usize = 0;
    while i < v.len()
        invariant
            i <= v.len(),
            v.len() == l.len(),
            l@ == lit@,
            forall|j: int| 0 <= j < i ==> v@[j] == l@[j],
        decreases v.len() - i,
    {
        if v[i] != l[i] {
            assert(v@[i as int] != l@[i as int]);
            return false;
        }
        i += 1;
    }
    assert(v@ =~= l@);
    true
}

fn message(prefix: &str, v: &Vec<char>) -> (s: String)
    ensures
        s@ == prefix@ + v@,
{
    let mut s = String::from_str(prefix);
    let t = string_of_range(v, 0, v.len());
    assert(v@.subrange(0, v.len() as int) == v@);
    push_str(&mut s, t.as_str());
    s
}

/// The value of an option: the attached one, else the next argument (consumed),
/// else an error naming the option.
fn take_value(args: &Vec<String>, next: usize, inline: Option<Vec<char>>, key: &Vec<char>) -> (r: Result<(Vec<char>, usize), String>)
    requires
        next <= args.len(),
    ensures
        match inline {
            Some(v) => r matches Ok((w, n)) && w@ == v@ && n == next,
            None => if next < args.len() {
                r matches Ok((w, n)) && w@ == args@[next as int]@ && n == next + 1
            } else {
                r matches Err(e) && e@ == "missing value for "@ + key@
            },
        },
{
    match inline {
        Some(v) => Ok((v, next)),
        None => {
            if next < args.len() {
                Ok((chars_of(args[next].as_str()), next + 1))
            } else {
                Err(message("missing value for ", key))
            }
        },
    }
}

/// Parses the arguments (without the program name); see `spec_parse_from`
/// starting from `default_config`.
pub fn parse_args(args: Vec<String>) -> (r: Result<Config, String>)
    ensures
        match (r, spec_parse_from(default_config(), args@.map_values(|a: String| a@))) {
            (Ok(c), Ok(cv)) => config_v(c) == cv,
            (Err(e), Err(ev)) => e@ == ev,
            _ => false,
        },
{
    let ghost av = args@.map_values(|a: String| a@);
    let ghost goal = spec_parse_from(default_config(), av);
    let mut cfg = Config {
        color: ColorMode::Auto,
        width: None,
        theme: String::from_str("base16-ocean.dark"),
        highlight: true,
        help: false,
        version: false,
    };
    let mut i: usize = 0;
    assert(av.skip(0) == av);
    while i < args.len()
        invariant
            i <= args.len(),
            av == args@.map_values(|a: String| a@),
            goal == spec_parse_from(default_config(), av),
            spec_parse_from(config_v(cfg), av.skip(i as int)) == goal,
        decreases args.len() - i,
    {
        let arg = chars_of(args[i].as_str());
        let ghost rest = av.skip(i as int);
        assert(rest[0] == arg@);
        assert(rest.drop_first() == av.skip(i + 1));
        let k = find_from(&arg, 0, '=');
        assert(arg@.skip(0) == arg@);
        let (key, inline) = if k < arg.len() {
            (chars_from(&arg, 0, k), Some(chars_from(&arg, k + 1, arg.len())))
        } else {
            (chars_from(&arg, 0, arg.len()), None)
        };
        proof {
            assert(arg@.subrange(0, arg@.len() as int) == arg@);
            assert(arg@.take(k as int) == arg@.subrange(0, k as int));
            assert(arg@.skip(k + 1) == arg@.subrange(k + 1, arg@.len() as int));
        }
        assert(split_key(arg@) == (key@, match &inline { Some(v) => Some(v@), None => None::<Seq<char>> }));
        i = i + 1;
        let is_color = eq_lit(&key, "--color");
        let is_width = eq_lit(&key, "--width");
        let is_theme = eq_lit(&key, "--theme");
        if is_color || is_width || is_theme {
            let ghost inl = match &inline { Some(v) => Some(v@), None => None::<Seq<char>> };
            assert(takes_value(key@));
            assert(rest.len() > 0);
            let (v, next) = match take_value(&args, i, inline, &key) {
                Ok(x) => x,
                Err(e) => {
                    assert(inl is None && rest.drop_first().len() == 0);
                    return Err(e);
                },
            };
            assert(av.skip(next as int) == (if inl is Some { av.skip(i as int) } else { av.skip(i as int).drop_first() }));
            assert(inl is None ==> rest.drop_first()[0] == av[i as int]);
            assert(v@ == (match inl { Some(x) => x, None => rest.drop_first()[0] }));
            i = next;
            if is_color {
                if eq_lit(&v, "auto") {
                    cfg.color = ColorMode::Auto;
                } else if eq_lit(&v, "always") {
                    cfg.color = ColorMode::Always;
                } else if eq_lit(&v, "never") {
                    cfg.color = ColorMode::Never;
                } else {
                    return Err(message("invalid color: ", &v));
                }
            } else if is_width {
                let s = string_of_range(&v, 0, v.len());
                assert(v@.subrange(0, v@.len() as int) == v@);
                match parse_usize(s.as_str()) {
                    Some(n) => {
                        cfg.width = Some(n);
                    },
                    None => {
                        return Err(message("invalid width: ", &v));
                    },
                }
            } else {
                cfg.theme = string_of_range(&v, 0, v.len());
                assert(v@.subrange(0, v@.len() as int) == v@);
            }
        } else if eq_lit(&key, "--no-highlight") {
            cfg.highlight = false;
        } else if eq_lit(&key, "-h") || eq_lit(&key, "--help") {
            cfg.help = true;
        } else if eq_lit(&key, "-V") || eq_lit(&key, "--version") {
            cfg.version = true;
        } else {
            return Err(message("unknown argument: ", &key));
        }
    }
    assert(av.skip(i as int).len() == 0);
    Ok(cfg)
}

/// `v[a..b]` as a vector.
fn chars_from(v: &Vec<char>, a: usize, b: usize) -> (r: Vec<char>)
    requires
        a <= b <= v.len(),
    ensures
        r@ == v@.subrange(a as int, b as int),
{
    let mut r: Vec<char> = Vec::new();
    let mut i = a;
    while i < b
        invariant
            a <= i <= b,
            b <= v.len(),
            r@ == v@.subrange(a as int, i as int),
        decreases b - i,
    {
        r.push(v[i]);
        i += 1;
        assert(r@ == v@.subrange(a as int, i as int));
    }
    r
}

/// Whether to emit colors: `always` and `never` decide alone (they win over
/// `NO_COLOR`); `auto` colors a terminal unless `NO_COLOR` is set.
pub fn use_color(mode: ColorMode, stdout_is_tty: bool, no_color_set: bool) -> (c: bool)
    ensures
        c == (match mode {
            ColorMode::Always => true,
            ColorMode::Never => false,
            ColorMode::Auto => stdout_is_tty && !no_color_set,
        }),
{
    match mode {
        ColorMode::Always => true,
        ColorMode::Never => false,
        ColorMode::Auto => stdout_is_tty && !no_color_set,
    }
}

} // verus!

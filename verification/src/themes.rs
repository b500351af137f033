//! The syntax definitions and the color theme that rendering options carry
//! (`syntect`'s built-in sets), and the choice of a theme by name.

use syntect::highlighting::ThemeSet;
use syntect::parsing::SyntaxSet;
use vstd::prelude::*;

verus! {

#[verifier::external_type_specification]
#[verifier::external_body]
pub struct ExSyntaxSet(SyntaxSet);

#[verifier::external_type_specification]
#[verifier::external_body]
pub struct ExThemeSet(ThemeSet);

/// The names of the themes in a set, in the set's order (ascending by name).
pub uninterp spec fn theme_names(ts: ThemeSet) -> Seq<Seq<char>>;

/// syntect's highlighting of `code` with the built-in theme named `theme` and,
/// for `Some(token)`, the built-in syntax that answers to the token (for `None`,
/// the plain-text syntax): for each line of the code, with its line end, the
/// 24-bit terminal escaped text, or `None` where syntect reports an error.
pub uninterp spec fn highlighted_code(code: Seq<char>, lang: Option<Seq<char>>, theme: Seq<char>) -> Seq<Option<Seq<char>>>;

/// Whether one of syntect's built-in syntaxes answers to the language token
/// (`SyntaxSet::find_syntax_by_token`).
pub uninterp spec fn token_has_syntax(token: Seq<char>) -> bool;

/// The theme taken when the one asked for is not in the set.
pub open spec fn fallback_theme() -> Seq<char> {
    "base16-ocean.dark"@
}

/// The names of the built-in themes that syntect documents.
pub open spec fn documented_themes() -> Seq<Seq<char>> {
    seq![
        "base16-ocean.dark"@,
        "base16-eighties.dark"@,
        "base16-mocha.dark"@,
        "base16-ocean.light"@,
        "InspiredGitHub"@,
        "Solarized (dark)"@,
        "Solarized (light)"@,
    ]
}

/// `SyntaxSet::load_defaults_newlines`: syntect's built-in syntax definitions.
#[verifier::external_body]
fn load_syntaxes() -> (r: SyntaxSet) {
    SyntaxSet::load_defaults_newlines()
}

/// `ThemeSet::load_defaults`: syntect's built-in themes; its documentation lists
/// the names of `documented_themes` as the keys of the set, and that is stated:
/// a name is a key exactly when it is one of them.
#[verifier::external_body]
fn load_themes() -> (r: ThemeSet)
    ensures
        forall|n: Seq<char>| #[trigger] theme_names(r).contains(n) <==> documented_themes().contains(n),
{
    ThemeSet::load_defaults()
}

/// `BTreeMap::contains_key` on the set's themes: whether one has this name.
#[verifier::external_body]
fn has_theme(ts: &ThemeSet, name: &str) -> (r: bool)
    ensures
        r == theme_names(*ts).contains(name@),
{
    ts.themes.contains_key(name)
}

/// `BTreeMap::keys` on the set's themes: the first name, if there is a theme.
#[verifier::external_body]
fn first_theme_name(ts: &ThemeSet) -> (r: Option<String>)
    ensures
        r is Some <==> theme_names(*ts).len() > 0,
        r matches Some(n) ==> n@ == theme_names(*ts)[0],
{
    ts.themes.keys().next().cloned()
}

/// The theme taken from a set with these names: the one asked for if the set
/// has it, else `base16-ocean.dark` if the set has that, else the first.
pub open spec fn chosen_theme(names: Seq<Seq<char>>, asked: Seq<char>) -> Seq<char> {
    if names.contains(asked) {
        asked
    } else if names.contains(fallback_theme()) {
        fallback_theme()
    } else {
        names[0]
    }
}

/// The name of the theme to take from a nonempty set when `asked` is asked for.
pub fn theme_choice(ts: &ThemeSet, asked: &str) -> (r: String)
    requires
        theme_names(*ts).len() > 0,
    ensures
        r@ == chosen_theme(theme_names(*ts), asked@),
        theme_names(*ts).contains(r@),
{
    if has_theme(ts, asked) {
        String::from_str(asked)
    } else if has_theme(ts, "base16-ocean.dark") {
        String::from_str("base16-ocean.dark")
    } else {
        match first_theme_name(ts) {
            Some(n) => {
                assert(theme_names(*ts).contains(n@)) by {
                    assert(theme_names(*ts)[0] == n@);
                }
                n
            },
            None => String::from_str(asked),
        }
    }
}

/// Loads the built-in syntaxes and themes and takes the name of the theme asked
/// for when syntect has it (`documented_themes`), else `base16-ocean.dark`; the
/// set holds a theme of that name.
pub(crate) fn load_highlighting(asked: &str) -> (r: (SyntaxSet, ThemeSet, String))
    ensures
        r.2@ == (if documented_themes().contains(asked@) { asked@ } else { fallback_theme() }),
        theme_names(r.1).contains(r.2@),
{
    let syntaxes = load_syntaxes();
    let themes = load_themes();
    proof {
        assert(documented_themes()[0] == fallback_theme());
        assert(documented_themes().contains(fallback_theme()));
        assert(theme_names(themes).contains(fallback_theme()));
        assert(theme_names(themes).len() > 0);
        assert(theme_names(themes).contains(asked@) <==> documented_themes().contains(asked@));
    }
    let name = theme_choice(&themes, asked);
    (syntaxes, themes, name)
}

} // verus!

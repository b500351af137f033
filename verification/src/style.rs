//! Text styles, styled spans, output lines, and their ANSI encoding.

use vstd::prelude::*;
use crate::text::{push_char, push_str};

verus! {

/// The inline attributes that a run of text carries.
#[derive(Clone, Copy, PartialEq, Eq, Debug, Structural)]
pub struct Style {
    pub bold: bool,
    pub italic: bool,
    pub strike: bool,
    pub code: bool,
    pub link: bool,
    pub dim: bool,
}

/// A run of text in one style.
#[derive(Clone, PartialEq, Eq, Debug)]
pub struct Span {
    pub text: String,
    pub style: Style,
}

/// One rendered output line; `live` marks a line of a block that may still change.
#[derive(Clone, PartialEq, Eq, Debug)]
pub struct Line {
    pub text: String,
    pub live: bool,
}

/// The style with no attribute set.
pub open spec fn plain() -> Style {
    Style { bold: false, italic: false, strike: false, code: false, link: false, dim: false }
}

/// The plain style with only `dim` set.
pub open spec fn dim_style() -> Style {
    Style { dim: true, ..plain() }
}

impl Default for Style {
    fn default() -> (s: Style)
        ensures
            s == plain(),
    {
        Style { bold: false, italic: false, strike: false, code: false, link: false, dim: false }
    }
}

impl Style {
    /// The style with no attribute set.
    pub fn plain_style() -> (s: Style)
        ensures
            s == plain(),
    {
        Style { bold: false, italic: false, strike: false, code: false, link: false, dim: false }
    }
}

/// The escape character that starts a terminal control sequence.
pub open spec fn esc() -> char {
    '\u{1b}'
}

/// The SGR reset sequence `ESC [ 0 m`.
pub open spec fn reset_seq() -> Seq<char> {
    seq![esc(), '[', '0', 'm']
}

/// `codes` with `c` appended when `on` holds.
pub open spec fn add_if(codes: Seq<Seq<char>>, on: bool, c: Seq<char>) -> Seq<Seq<char>> {
    if on { codes.push(c) } else { codes }
}

/// The SGR parameters of a style, in the order bold, dim, italic, strike, code, link.
pub open spec fn style_codes(s: Style) -> Seq<Seq<char>> {
    add_if(add_if(add_if(add_if(add_if(add_if(Seq::empty(), s.bold, seq!['1']), s.dim, seq!['2']),
        s.italic, seq!['3']), s.strike, seq!['9']), s.code, seq!['7']), s.link, seq!['3', '6'])
}

/// The parameters joined with `;`.
pub open spec fn join_codes(codes: Seq<Seq<char>>) -> Seq<char>
    decreases codes.len(),
{
    if codes.len() == 0 {
        Seq::empty()
    } else if codes.len() == 1 {
        codes[0]
    } else {
        join_codes(codes.drop_last()) + seq![';'] + codes.last()
    }
}

/// The SGR sequence that switches a style on: empty for the plain style,
/// else `ESC [ codes m`.
pub open spec fn spec_ansi_start(s: Style) -> Seq<char> {
    let codes = style_codes(s);
    if codes.len() == 0 {
        Seq::empty()
    } else {
        seq![esc(), '['] + join_codes(codes) + seq!['m']
    }
}

/// The view of a span: its characters and its style.
pub open spec fn span_v(sp: Span) -> (Seq<char>, Style) {
    (sp.text@, sp.style)
}

/// The views of a sequence of spans.
pub open spec fn spans_v(spans: Seq<Span>) -> Seq<(Seq<char>, Style)> {
    spans.map_values(|sp: Span| span_v(sp))
}

/// Concatenation of the span texts.
pub open spec fn spans_text(spans: Seq<(Seq<char>, Style)>) -> Seq<char>
    decreases spans.len(),
{
    if spans.len() == 0 {
        Seq::empty()
    } else {
        spans[0].0 + spans_text(spans.drop_first())
    }
}

/// Colored encoding of `spans` when the style in force before them is `prev`:
/// each change of style emits a reset and the new style's sequence, and a
/// non-plain style left at the end is reset.
pub open spec fn encode_from(spans: Seq<(Seq<char>, Style)>, prev: Style) -> Seq<char>
    decreases spans.len(),
{
    if spans.len() == 0 {
        if prev != plain() { reset_seq() } else { Seq::empty() }
    } else {
        let sp = spans[0];
        let head = if sp.1 != prev { reset_seq() + spec_ansi_start(sp.1) } else { Seq::empty() };
        head + sp.0 + encode_from(spans.drop_first(), sp.1)
    }
}

/// The text of a line made of `spans`: the bare texts without color, else the
/// ANSI encoding that starts from the plain style.
pub open spec fn spec_encode_line(spans: Seq<(Seq<char>, Style)>, color: bool) -> Seq<char> {
    if color { encode_from(spans, plain()) } else { spans_text(spans) }
}

proof fn lemma_join_push(codes: Seq<Seq<char>>, c: Seq<char>)
    ensures
        join_codes(codes.push(c)) == join_codes(codes) + (if codes.len() == 0 { Seq::<char>::empty() } else { seq![';'] }) + c,
{
    assert(codes.push(c).drop_last() == codes);
    if codes.len() == 0 {
        assert(codes.push(c) == seq![c]);
    }
}

fn add_code(body: &mut String, n: usize, on: bool, code: char, code2: Option<char>, Ghost(codes): Ghost<Seq<Seq<char>>>) -> (r: (usize, Ghost<Seq<Seq<char>>>))
    requires
        old(body)@ == join_codes(codes),
        n == codes.len(),
        n < 6,
    ensures
        r.1@ == add_if(codes, on, match code2 { Some(c2) => seq![code, c2], None => seq![code] }),
        final(body)@ == join_codes(r.1@),
        r.0 == r.1@.len(),
        r.0 <= n + 1,
{
    let ghost c = match code2 { Some(c2) => seq![code, c2], None => seq![code] };
    if !on {
        return (n, Ghost(codes));
    }
    proof { lemma_join_push(codes, c); }
    if n != 0 {
        push_char(body, ';');
    }
    push_char(body, code);
    if let Some(c2) = code2 {
        push_char(body, c2);
    }
    assert(body@ == join_codes(codes.push(c)));
    (n + 1, Ghost(codes.push(c)))
}

/// The SGR sequence that switches `s` on (empty for the plain style).
#[verifier::rlimit(40)]
pub fn ansi_start(s: Style) -> (r: String)
    ensures
        r@ == spec_ansi_start(s),
{
    let mut body = String::new();
    let (n, g) = add_code(&mut body, 0, s.bold, '1', None, Ghost(Seq::empty()));
    let (n, g) = add_code(&mut body, n, s.dim, '2', None, g);
    let (n, g) = add_code(&mut body, n, s.italic, '3', None, g);
    let (n, g) = add_code(&mut body, n, s.strike, '9', None, g);
    let (n, g) = add_code(&mut body, n, s.code, '7', None, g);
    let (n, g) = add_code(&mut body, n, s.link, '3', Some('6'), g);
    assert(g@ == style_codes(s));
    if n == 0 {
        String::new()
    } else {
        let mut r = String::new();
        push_char(&mut r, '\u{1b}');
        push_char(&mut r, '[');
        push_str(&mut r, body.as_str());
        push_char(&mut r, 'm');
        r
    }
}

fn push_reset(out: &mut String)
    ensures
        final(out)@ == old(out)@ + reset_seq(),
{
    push_char(out, '\u{1b}');
    push_char(out, '[');
    push_char(out, '0');
    push_char(out, 'm');
}

proof fn lemma_spans_text_skip(spans: Seq<(Seq<char>, Style)>, i: int)
    requires
        0 <= i < spans.len(),
    ensures
        spans_text(spans.skip(i)) == spans[i].0 + spans_text(spans.skip(i + 1)),
{
    assert(spans.skip(i).drop_first() == spans.skip(i + 1));
}

/// The text of one output line: the bare span texts, or with `color` the ANSI
/// encoding in which every change of style resets and re-opens, and a styled
/// ending is reset.
pub fn encode_line(spans: &[Span], color: bool) -> (r: String)
    ensures
        r@ == spec_encode_line(spans_v(spans@), color),
{
    let mut out = String::new();
    let mut i: usize = 0;
    let ghost sv = spans_v(spans@);
    assert(sv.skip(0) == sv);
    if !color {
        while i < spans.len()
            invariant
                i <= spans.len(),
                sv == spans_v(spans@),
                out@ + spans_text(sv.skip(i as int)) == spans_text(sv),
            decreases spans.len() - i,
        {
            proof { lemma_spans_text_skip(sv, i as int); }
            push_str(&mut out, spans[i].text.as_str());
            i += 1;
        }
        assert(sv.skip(i as int).len() == 0);
        return out;
    }
    let mut prev = Style::plain_style();
    while i < spans.len()
        invariant
            i <= spans.len(),
            sv == spans_v(spans@),
            out@ + encode_from(sv.skip(i as int), prev) == encode_from(sv, plain()),
        decreases spans.len() - i,
    {
        assert(sv.skip(i as int).drop_first() == sv.skip(i + 1));
        let st = spans[i].style;
        if st != prev {
            push_reset(&mut out);
            let a = ansi_start(st);
            push_str(&mut out, a.as_str());
            prev = st;
        }
        push_str(&mut out, spans[i].text.as_str());
        i += 1;
    }
    if prev != Style::plain_style() {
        push_reset(&mut out);
    }
    out
}

} // verus!

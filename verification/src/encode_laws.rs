//! What the colored encoding of a line keeps: removing its escape sequences
//! gives back the text, a line of plain spans carries none, and a line ends with
//! a reset exactly when its last span is styled.

use vstd::prelude::*;
use crate::style::{
    Style, add_if, encode_from, esc, join_codes, plain, reset_seq, spans_text, spec_ansi_start,
    spec_encode_line, style_codes,
};
use crate::text::{find_char, lemma_find_char_exact};

verus! {

/// The text with every `ESC [ ... m` sequence taken out (an `ESC [` with no
/// `m` after it is kept with the rest).
pub open spec fn strip_sgr(s: Seq<char>) -> Seq<char>
    decreases s.len(),
{
    if s.len() == 0 {
        Seq::empty()
    } else if s.len() >= 2 && s[0] == esc() && s[1] == '[' {
        match find_char(s, 'm') {
            Some(k) => {
                proof { crate::text::lemma_find_char(s, 'm'); }
                strip_sgr(s.skip(k + 1))
            },
            None => s,
        }
    } else {
        seq![s[0]] + strip_sgr(s.drop_first())
    }
}

/// No character is ESC.
pub open spec fn esc_free(s: Seq<char>) -> bool {
    forall|i: int| 0 <= i < s.len() ==> s[i] != esc()
}

/// No span text holds ESC.
pub open spec fn spans_esc_free(spans: Seq<(Seq<char>, Style)>) -> bool {
    forall|i: int| 0 <= i < spans.len() ==> esc_free(#[trigger] spans[i].0)
}

proof fn lemma_strip_plain(a: Seq<char>, b: Seq<char>)
    requires
        esc_free(a),
    ensures
        strip_sgr(a + b) == a + strip_sgr(b),
    decreases a.len(),
{
    if a.len() == 0 {
        assert(a + b == b);
        assert(a + strip_sgr(b) == strip_sgr(b));
    } else {
        let ab = a + b;
        assert(ab[0] == a[0]);
        assert(ab.drop_first() == a.drop_first() + b);
        lemma_strip_plain(a.drop_first(), b);
        assert(a == seq![a[0]] + a.drop_first());
        assert(seq![a[0]] + (a.drop_first() + strip_sgr(b)) == (seq![a[0]] + a.drop_first()) + strip_sgr(b));
    }
}

/// A complete escape sequence `ESC [ p m` whose parameters `p` hold no `m`.
proof fn lemma_strip_seq(p: Seq<char>, b: Seq<char>)
    requires
        forall|i: int| 0 <= i < p.len() ==> p[i] != 'm',
    ensures
        strip_sgr(seq![esc(), '['] + p + seq!['m'] + b) == strip_sgr(b),
{
    let e = seq![esc(), '['] + p + seq!['m'];
    let s = e + b;
    let k: int = p.len() as int + 2;
    assert(s[0] == esc());
    assert(s[1] == '[');
    assert forall|j: int| 0 <= j < k implies s[j] != 'm' by {
        if j >= 2 {
            assert(s[j] == p[j - 2]);
        }
    }
    assert(s[k] == 'm');
    lemma_find_char_exact(s, 'm', k);
    assert(s.skip(k + 1) == b);
}

proof fn lemma_join_no_m(codes: Seq<Seq<char>>)
    requires
        forall|i: int, j: int| 0 <= i < codes.len() && 0 <= j < codes[i].len() ==> #[trigger] codes[i][j] != 'm',
    ensures
        forall|j: int| 0 <= j < join_codes(codes).len() ==> join_codes(codes)[j] != 'm',
    decreases codes.len(),
{
    if codes.len() > 1 {
        let init = codes.drop_last();
        assert forall|i: int, j: int| 0 <= i < init.len() && 0 <= j < init[i].len() implies #[trigger] init[i][j] != 'm' by {
            assert(init[i] == codes[i]);
        }
        lemma_join_no_m(init);
        let a = join_codes(init) + seq![';'];
        let l = codes.last();
        assert forall|j: int| 0 <= j < (a + l).len() implies (a + l)[j] != 'm' by {
            if j < a.len() {
                if j < join_codes(init).len() {
                    assert((a + l)[j] == join_codes(init)[j]);
                }
            } else {
                assert((a + l)[j] == l[j - a.len()]);
                assert(codes[codes.len() - 1][j - a.len()] != 'm');
            }
        }
    } else if codes.len() == 1 {
        assert forall|j: int| 0 <= j < codes[0].len() implies codes[0][j] != 'm' by {
            assert(codes[0][j] != 'm');
        }
    }
}

proof fn lemma_add_if_no_m(codes: Seq<Seq<char>>, on: bool, c: Seq<char>)
    requires
        forall|i: int, j: int| 0 <= i < codes.len() && 0 <= j < codes[i].len() ==> #[trigger] codes[i][j] != 'm',
        forall|j: int| 0 <= j < c.len() ==> c[j] != 'm',
    ensures
        forall|i: int, j: int| 0 <= i < add_if(codes, on, c).len() && 0 <= j < add_if(codes, on, c)[i].len()
            ==> #[trigger] add_if(codes, on, c)[i][j] != 'm',
{
    if on {
        assert forall|i: int, j: int| 0 <= i < codes.push(c).len() && 0 <= j < codes.push(c)[i].len()
            implies #[trigger] codes.push(c)[i][j] != 'm' by {
            if i < codes.len() {
                assert(codes.push(c)[i] == codes[i]);
            }
        }
    }
}

proof fn lemma_strip_ansi(st: Style, b: Seq<char>)
    ensures
        strip_sgr(spec_ansi_start(st) + b) == strip_sgr(b),
{
    let codes = style_codes(st);
    if codes.len() == 0 {
        assert(spec_ansi_start(st) + b == b);
    } else {
        let e: Seq<Seq<char>> = Seq::empty();
        lemma_add_if_no_m(e, st.bold, seq!['1']);
        let c1 = add_if(e, st.bold, seq!['1']);
        lemma_add_if_no_m(c1, st.dim, seq!['2']);
        let c2 = add_if(c1, st.dim, seq!['2']);
        lemma_add_if_no_m(c2, st.italic, seq!['3']);
        let c3 = add_if(c2, st.italic, seq!['3']);
        lemma_add_if_no_m(c3, st.strike, seq!['9']);
        let c4 = add_if(c3, st.strike, seq!['9']);
        lemma_add_if_no_m(c4, st.code, seq!['7']);
        let c5 = add_if(c4, st.code, seq!['7']);
        lemma_add_if_no_m(c5, st.link, seq!['3', '6']);
        lemma_join_no_m(codes);
        lemma_strip_seq(join_codes(codes), b);
    }
}

proof fn lemma_strip_encode(spans: Seq<(Seq<char>, Style)>, prev: Style)
    requires
        spans_esc_free(spans),
    ensures
        strip_sgr(encode_from(spans, prev)) == spans_text(spans),
    decreases spans.len(),
{
    if spans.len() == 0 {
        if prev != plain() {
            lemma_strip_seq(seq!['0'], Seq::empty());
            assert(seq![esc(), '['] + seq!['0'] + seq!['m'] + Seq::<char>::empty() == reset_seq());
        }
    } else {
        let sp = spans[0];
        let tail = spans.drop_first();
        assert forall|i: int| 0 <= i < tail.len() implies esc_free(#[trigger] tail[i].0) by {
            assert(tail[i] == spans[i + 1]);
        }
        lemma_strip_encode(tail, sp.1);
        let rest = encode_from(tail, sp.1);
        assert(esc_free(spans[0].0));
        lemma_strip_plain(sp.0, rest);
        if sp.1 != prev {
            let x = spec_ansi_start(sp.1) + (sp.0 + rest);
            lemma_strip_ansi(sp.1, sp.0 + rest);
            lemma_strip_seq(seq!['0'], x);
            assert(seq![esc(), '['] + seq!['0'] + seq!['m'] == reset_seq());
            assert(encode_from(spans, prev) == reset_seq() + x) by {
                assert(reset_seq() + spec_ansi_start(sp.1) + sp.0 + rest == reset_seq() + x);
            }
        } else {
            assert(encode_from(spans, prev) == sp.0 + rest) by {
                assert(Seq::<char>::empty() + sp.0 + rest == sp.0 + rest);
            }
        }
    }
}

/// Taking the escape sequences out of a line's colored encoding gives back the
/// text of its spans, when no span text holds ESC; without colors the line is
/// that text already.
pub proof fn lemma_encoding_keeps_text(spans: Seq<(Seq<char>, Style)>, color: bool)
    requires
        spans_esc_free(spans),
    ensures
        strip_sgr(spec_encode_line(spans, color)) == spans_text(spans),
        !color ==> spec_encode_line(spans, color) == spans_text(spans),
{
    if color {
        lemma_strip_encode(spans, plain());
    } else {
        lemma_plain_text_strip(spans);
    }
}

proof fn lemma_spans_text_esc_free(spans: Seq<(Seq<char>, Style)>)
    requires
        spans_esc_free(spans),
    ensures
        esc_free(spans_text(spans)),
    decreases spans.len(),
{
    if spans.len() > 0 {
        let tail = spans.drop_first();
        assert forall|i: int| 0 <= i < tail.len() implies esc_free(#[trigger] tail[i].0) by {
            assert(tail[i] == spans[i + 1]);
        }
        lemma_spans_text_esc_free(tail);
        assert(esc_free(spans[0].0));
        let a = spans[0].0;
        let b = spans_text(tail);
        assert forall|i: int| 0 <= i < (a + b).len() implies (a + b)[i] != esc() by {
            if i < a.len() {
                assert((a + b)[i] == a[i]);
            } else {
                assert((a + b)[i] == b[i - a.len()]);
            }
        }
    }
}

proof fn lemma_plain_text_strip(spans: Seq<(Seq<char>, Style)>)
    requires
        spans_esc_free(spans),
    ensures
        strip_sgr(spans_text(spans)) == spans_text(spans),
{
    lemma_spans_text_esc_free(spans);
    lemma_strip_plain(spans_text(spans), Seq::empty());
    assert(spans_text(spans) + Seq::<char>::empty() == spans_text(spans));
}

proof fn lemma_encode_plain_styles(spans: Seq<(Seq<char>, Style)>)
    requires
        forall|i: int| 0 <= i < spans.len() ==> (#[trigger] spans[i]).1 == plain(),
    ensures
        encode_from(spans, plain()) == spans_text(spans),
    decreases spans.len(),
{
    if spans.len() > 0 {
        let tail = spans.drop_first();
        assert forall|i: int| 0 <= i < tail.len() implies (#[trigger] tail[i]).1 == plain() by {
            assert(tail[i] == spans[i + 1]);
        }
        lemma_encode_plain_styles(tail);
        assert(spans[0].1 == plain());
        assert(Seq::<char>::empty() + spans[0].0 + encode_from(tail, plain()) == spans[0].0 + spans_text(tail));
    }
}

/// A line whose spans all have the plain style is encoded, with or without
/// colors, as just the text of its spans: no escape sequence is written.
pub proof fn lemma_plain_spans_have_no_sequences(spans: Seq<(Seq<char>, Style)>, color: bool)
    requires
        forall|i: int| 0 <= i < spans.len() ==> (#[trigger] spans[i]).1 == plain(),
    ensures
        spec_encode_line(spans, color) == spans_text(spans),
{
    lemma_encode_plain_styles(spans);
}

/// The colored encoding without the reset that closes a styled end.
pub open spec fn encode_body(spans: Seq<(Seq<char>, Style)>, prev: Style) -> Seq<char>
    decreases spans.len(),
{
    if spans.len() == 0 {
        Seq::empty()
    } else {
        let sp = spans[0];
        style_change(sp.1, prev) + sp.0 + encode_body(spans.drop_first(), sp.1)
    }
}

/// What a change from style `prev` to `st` writes: a reset and the new style's
/// sequence, or nothing when the style stays.
pub open spec fn style_change(st: Style, prev: Style) -> Seq<char> {
    if st != prev { reset_seq() + spec_ansi_start(st) } else { Seq::empty() }
}

/// The style in force after the spans.
pub open spec fn last_style(spans: Seq<(Seq<char>, Style)>, prev: Style) -> Style {
    if spans.len() == 0 { prev } else { spans.last().1 }
}

/// None of the last `k` characters is ESC.
pub open spec fn tail_clean(s: Seq<char>, k: int) -> bool {
    forall|i: int| 0 <= i < s.len() && s.len() - k <= i ==> s[i] != esc()
}

/// The text ends with the reset sequence `ESC [ 0 m`.
pub open spec fn ends_with_reset(s: Seq<char>) -> bool {
    s.len() >= 4 && s.skip(s.len() - 4) == reset_seq()
}

/// Every span text is non-empty and holds no ESC.
pub open spec fn texts_ok(spans: Seq<(Seq<char>, Style)>) -> bool {
    forall|i: int| 0 <= i < spans.len() ==> (#[trigger] spans[i]).0.len() > 0 && esc_free(spans[i].0)
}

proof fn lemma_encode_split(spans: Seq<(Seq<char>, Style)>, prev: Style)
    ensures
        encode_from(spans, prev) == encode_body(spans, prev)
            + (if last_style(spans, prev) != plain() { reset_seq() } else { Seq::<char>::empty() }),
    decreases spans.len(),
{
    if spans.len() == 0 {
        assert(Seq::<char>::empty() + (if prev != plain() { reset_seq() } else { Seq::<char>::empty() })
            == (if prev != plain() { reset_seq() } else { Seq::<char>::empty() }));
    } else {
        let sp = spans[0];
        let tail = spans.drop_first();
        lemma_encode_split(tail, sp.1);
        assert(last_style(tail, sp.1) == last_style(spans, prev)) by {
            if tail.len() > 0 {
                assert(tail.last() == spans.last());
            }
        }
        let fin = if last_style(spans, prev) != plain() { reset_seq() } else { Seq::<char>::empty() };
        assert(style_change(sp.1, prev) + sp.0 + (encode_body(tail, sp.1) + fin)
            == (style_change(sp.1, prev) + sp.0 + encode_body(tail, sp.1)) + fin);
    }
}

proof fn lemma_body_push(init: Seq<(Seq<char>, Style)>, x: (Seq<char>, Style), prev: Style)
    ensures
        encode_body(init.push(x), prev) == encode_body(init, prev) + style_change(x.1, last_style(init, prev)) + x.0,
    decreases init.len(),
{
    let all = init.push(x);
    if init.len() == 0 {
        assert(all.drop_first() == Seq::<(Seq<char>, Style)>::empty());
        assert(all[0] == x);
        assert(encode_body(all, prev) == style_change(x.1, prev) + x.0 + encode_body(all.drop_first(), x.1));
        assert(encode_body(all.drop_first(), x.1) == Seq::<char>::empty());
        assert(encode_body(init, prev) == Seq::<char>::empty());
        assert(last_style(init, prev) == prev);
        assert(Seq::<char>::empty() + style_change(x.1, prev) + x.0 == style_change(x.1, prev) + x.0 + Seq::<char>::empty());
    } else {
        let sp = init[0];
        let rest = init.drop_first();
        assert(all[0] == sp);
        assert(all.drop_first() == rest.push(x));
        lemma_body_push(rest, x, sp.1);
        assert(last_style(rest, sp.1) == last_style(init, prev)) by {
            if rest.len() > 0 {
                assert(rest.last() == init.last());
            }
        }
        let c = style_change(x.1, last_style(init, prev));
        assert(style_change(sp.1, prev) + sp.0 + (encode_body(rest, sp.1) + c + x.0)
            == (style_change(sp.1, prev) + sp.0 + encode_body(rest, sp.1)) + c + x.0);
    }
}

proof fn lemma_clean_concat(a: Seq<char>, b: Seq<char>, k: int)
    requires
        tail_clean(b, k),
        b.len() >= k || tail_clean(a, k - b.len()),
    ensures
        tail_clean(a + b, k),
{
    let s = a + b;
    assert forall|i: int| 0 <= i < s.len() && s.len() - k <= i implies s[i] != esc() by {
        if i >= a.len() {
            assert(s[i] == b[i - a.len()]);
        } else {
            assert(s[i] == a[i]);
        }
    }
}

proof fn lemma_free_clean(s: Seq<char>, k: int)
    requires
        esc_free(s),
    ensures
        tail_clean(s, k),
{
}

proof fn lemma_join_no_esc(codes: Seq<Seq<char>>)
    requires
        forall|i: int, j: int| 0 <= i < codes.len() && 0 <= j < codes[i].len() ==> #[trigger] codes[i][j] != esc(),
    ensures
        esc_free(join_codes(codes)),
    decreases codes.len(),
{
    if codes.len() > 1 {
        let init = codes.drop_last();
        assert forall|i: int, j: int| 0 <= i < init.len() && 0 <= j < init[i].len() implies #[trigger] init[i][j] != esc() by {
            assert(init[i] == codes[i]);
        }
        lemma_join_no_esc(init);
        let a = join_codes(init) + seq![';'];
        let l = codes.last();
        assert forall|j: int| 0 <= j < (a + l).len() implies (a + l)[j] != esc() by {
            if j < a.len() {
                if j < join_codes(init).len() {
                    assert((a + l)[j] == join_codes(init)[j]);
                }
            } else {
                assert((a + l)[j] == l[j - a.len()]);
                assert(codes[codes.len() - 1][j - a.len()] != esc());
            }
        }
    } else if codes.len() == 1 {
        assert forall|j: int| 0 <= j < codes[0].len() implies codes[0][j] != esc() by {
            assert(codes[0][j] != esc());
        }
    }
}

proof fn lemma_add_if_no_esc(codes: Seq<Seq<char>>, on: bool, c: Seq<char>)
    requires
        forall|i: int, j: int| 0 <= i < codes.len() && 0 <= j < codes[i].len() ==> #[trigger] codes[i][j] != esc(),
        forall|j: int| 0 <= j < c.len() ==> c[j] != esc(),
    ensures
        forall|i: int, j: int| 0 <= i < add_if(codes, on, c).len() && 0 <= j < add_if(codes, on, c)[i].len()
            ==> #[trigger] add_if(codes, on, c)[i][j] != esc(),
{
    if on {
        assert forall|i: int, j: int| 0 <= i < codes.push(c).len() && 0 <= j < codes.push(c)[i].len()
            implies #[trigger] codes.push(c)[i][j] != esc() by {
            if i < codes.len() {
                assert(codes.push(c)[i] == codes[i]);
            }
        }
    }
}

proof fn lemma_change_clean(st: Style, prev: Style)
    ensures
        style_change(st, prev).len() > 0 ==> style_change(st, prev).len() >= 4 && tail_clean(style_change(st, prev), 3),
{
    if st != prev {
        let codes = style_codes(st);
        let r = reset_seq();
        assert(tail_clean(r, 3));
        let a = spec_ansi_start(st);
        if codes.len() == 0 {
            assert(r + a == r);
        } else {
            let e: Seq<Seq<char>> = Seq::empty();
            lemma_add_if_no_esc(e, st.bold, seq!['1']);
            let c1 = add_if(e, st.bold, seq!['1']);
            lemma_add_if_no_esc(c1, st.dim, seq!['2']);
            let c2 = add_if(c1, st.dim, seq!['2']);
            lemma_add_if_no_esc(c2, st.italic, seq!['3']);
            let c3 = add_if(c2, st.italic, seq!['3']);
            lemma_add_if_no_esc(c3, st.strike, seq!['9']);
            let c4 = add_if(c3, st.strike, seq!['9']);
            lemma_add_if_no_esc(c4, st.code, seq!['7']);
            let c5 = add_if(c4, st.code, seq!['7']);
            lemma_add_if_no_esc(c5, st.link, seq!['3', '6']);
            let j = join_codes(codes);
            lemma_join_no_esc(codes);
            assert(esc_free(j + seq!['m'])) by {
                assert forall|i: int| 0 <= i < (j + seq!['m']).len() implies (j + seq!['m'])[i] != esc() by {
                    if i < j.len() {
                        assert((j + seq!['m'])[i] == j[i]);
                    }
                }
            }
            lemma_free_clean(j + seq!['m'], 3);
            assert(tail_clean(seq![esc(), '['], 1));
            lemma_clean_concat(seq![esc(), '['], j + seq!['m'], 3);
            assert(a == seq![esc(), '['] + (j + seq!['m']));
            lemma_clean_concat(r, a, 3);
        }
    }
}

proof fn lemma_body_clean(spans: Seq<(Seq<char>, Style)>, prev: Style)
    requires
        spans.len() > 0,
        texts_ok(spans),
    ensures
        tail_clean(encode_body(spans.drop_last(), prev) + style_change(spans.last().1, last_style(spans.drop_last(), prev)), 3),
        tail_clean(encode_body(spans, prev), 3),
    decreases spans.len(),
{
    let init = spans.drop_last();
    let x = spans.last();
    let c = style_change(x.1, last_style(init, prev));
    let b = encode_body(init, prev);
    lemma_change_clean(x.1, last_style(init, prev));
    if c.len() > 0 {
        lemma_clean_concat(b, c, 3);
    } else {
        assert(b + c == b);
        if init.len() > 0 {
            assert(texts_ok(init)) by {
                assert forall|i: int| 0 <= i < init.len() implies (#[trigger] init[i]).0.len() > 0 && esc_free(init[i].0) by {
                    assert(init[i] == spans[i]);
                }
            }
            lemma_body_clean(init, prev);
        }
    }
    assert(spans[spans.len() - 1] == x);
    lemma_free_clean(x.0, 3);
    lemma_clean_concat(b + c, x.0, 3);
    lemma_body_push(init, x, prev);
    assert(init.push(x) == spans);
}

/// A line's colored encoding ends with a reset exactly when its last span's
/// style is not the plain one, for spans whose texts are non-empty and hold no ESC.
pub proof fn lemma_encoding_ends_with_reset_iff_styled(spans: Seq<(Seq<char>, Style)>)
    requires
        spans.len() > 0,
        texts_ok(spans),
    ensures
        ends_with_reset(spec_encode_line(spans, true)) <==> spans.last().1 != plain(),
{
    lemma_encode_split(spans, plain());
    let body = encode_body(spans, plain());
    let e = spec_encode_line(spans, true);
    if spans.last().1 != plain() {
        assert(e == body + reset_seq());
        assert(e.skip(e.len() - 4) =~= reset_seq());
    } else {
        assert(e == body + Seq::<char>::empty());
        assert(e == body);
        let init = spans.drop_last();
        let x = spans.last();
        lemma_body_clean(spans, plain());
        let pre = encode_body(init, plain()) + style_change(x.1, last_style(init, plain()));
        assert(spans[spans.len() - 1] == x);
        lemma_free_clean(x.0, 4);
        assert(x.0.len() >= 4 || tail_clean(pre, 4 - x.0.len()));
        lemma_clean_concat(pre, x.0, 4);
        lemma_body_push(init, x, plain());
        assert(init.push(x) == spans);
        if ends_with_reset(e) {
            assert(e.skip(e.len() - 4)[0] == e[e.len() - 4]);
            assert(reset_seq()[0] == esc());
            assert(false);
        }
    }
}

proof fn lemma_join_push_suffix(codes: Seq<Seq<char>>, c: Seq<char>)
    ensures
        exists|p: Seq<char>| join_codes(codes.push(c)) == p + c,
{
    assert(codes.push(c).drop_last() == codes);
    assert(codes.push(c).last() == c);
    if codes.len() == 0 {
        assert(codes.push(c)[0] == c);
        assert(join_codes(codes.push(c)) == Seq::<char>::empty() + c);
    } else {
        assert(join_codes(codes.push(c)) == (join_codes(codes) + seq![';']) + c);
    }
}

proof fn lemma_join_keeps(codes: Seq<Seq<char>>, c: Seq<char>, k: int)
    requires
        0 <= k < join_codes(codes).len(),
    ensures
        join_codes(codes.push(c))[k] == join_codes(codes)[k],
{
    assert(codes.push(c).drop_last() == codes);
    if codes.len() > 0 {
        assert(join_codes(codes.push(c)) == join_codes(codes) + seq![';'] + c);
    }
}

/// In colors, inline code shows: the sequence that switches on a style with the
/// code attribute holds the SGR parameter 7 (reverse video).
pub proof fn lemma_code_style_sequence_has_7(st: Style)
    requires
        st.code,
    ensures
        spec_ansi_start(st).contains('7'),
{
    let e: Seq<Seq<char>> = Seq::empty();
    let c1 = add_if(e, st.bold, seq!['1']);
    let c2 = add_if(c1, st.dim, seq!['2']);
    let c3 = add_if(c2, st.italic, seq!['3']);
    let c4 = add_if(c3, st.strike, seq!['9']);
    let c5 = c4.push(seq!['7']);
    lemma_join_push_suffix(c4, seq!['7']);
    let p = choose|p: Seq<char>| join_codes(c4.push(seq!['7'])) == p + seq!['7'];
    let j5 = join_codes(c5);
    let k = p.len() as int;
    assert(j5 == p + seq!['7']);
    assert(j5.len() == k + 1);
    assert(j5[k] == '7');
    let codes = style_codes(st);
    assert(codes == add_if(c5, st.link, seq!['3', '6']));
    let j = join_codes(codes);
    if st.link {
        lemma_join_keeps(c5, seq!['3', '6'], k);
        assert(c5.push(seq!['3', '6']).drop_last() == c5);
        assert(j == j5 + seq![';'] + seq!['3', '6']);
    } else {
        assert(j == j5);
    }
    assert(j.len() > k);
    assert(j[k] == '7');
    assert(codes.len() > 0);
    let a = spec_ansi_start(st);
    assert(a == seq![esc(), '['] + j + seq!['m']);
    assert((seq![esc(), '['] + j)[k + 2] == j[k]);
    assert(a[k + 2] == '7');
    assert(0 <= k + 2 < a.len());
}

} // verus!

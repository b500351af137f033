//! What word wrapping keeps: every row fits its width (a lone over-wide character
//! aside), no visible character is lost, added or reordered, words are joined
//! by single spaces, and a word that fits is placed greedily and never split.

use vstd::prelude::*;
use crate::style::Style;
use crate::wrap::{
    WrapState, break_step, break_word, is_ws, lemma_word_len, place_word, sep_char, seq_width,
    spec_wrap_widths, word_len, wrap_scan,
};

verus! {

/// The characters that are not white space, in order.
pub open spec fn non_ws(cs: Seq<(char, Style)>) -> Seq<(char, Style)>
    decreases cs.len(),
{
    if cs.len() == 0 {
        Seq::empty()
    } else {
        let r = non_ws(cs.drop_last());
        if is_ws(cs.last().0) { r } else { r.push(cs.last()) }
    }
}

/// The rows joined end to end.
pub open spec fn flat(rows: Seq<Seq<(char, Style)>>) -> Seq<(char, Style)>
    decreases rows.len(),
{
    if rows.len() == 0 {
        Seq::empty()
    } else {
        flat(rows.drop_last()) + rows.last()
    }
}

/// A row fits `width` columns, or is a single character.
pub open spec fn row_fits(r: Seq<(char, Style)>, width: int) -> bool {
    seq_width(r) <= width || r.len() == 1
}

proof fn lemma_non_ws_concat(a: Seq<(char, Style)>, b: Seq<(char, Style)>)
    ensures
        non_ws(a + b) == non_ws(a) + non_ws(b),
    decreases b.len(),
{
    if b.len() == 0 {
        assert(a + b == a);
    } else {
        lemma_non_ws_concat(a, b.drop_last());
        assert((a + b).drop_last() == a + b.drop_last());
    }
}

proof fn lemma_flat_push(rows: Seq<Seq<(char, Style)>>, r: Seq<(char, Style)>)
    ensures
        flat(rows.push(r)) == flat(rows) + r,
{
    assert(rows.push(r).drop_last() == rows);
}

spec fn content(st: WrapState) -> Seq<(char, Style)> {
    non_ws(flat(st.0) + st.1)
}

proof fn lemma_single(c: (char, Style))
    ensures
        non_ws(seq![c]) == (if is_ws(c.0) { Seq::<(char, Style)>::empty() } else { seq![c] }),
{
    assert(seq![c].drop_last() == Seq::<(char, Style)>::empty());
    assert(non_ws(Seq::<(char, Style)>::empty()) == Seq::<(char, Style)>::empty());
    assert(Seq::<(char, Style)>::empty().push(c) == seq![c]);
    assert(seq![c].last() == c);
}

proof fn lemma_break_step_content(st: WrapState, c: (char, Style), width: int)
    ensures
        content(break_step(st, c, width)) == content(st) + non_ws(seq![c]),
{
    let cw = crate::width::spec_char_width(c.0) as int;
    if st.2 + cw > width && st.1.len() > 0 {
        lemma_flat_push(st.0, st.1);
        assert(flat(st.0.push(st.1)) + seq![c] == (flat(st.0) + st.1) + seq![c]);
        lemma_non_ws_concat(flat(st.0) + st.1, seq![c]);
    } else {
        assert(flat(st.0) + st.1.push(c) == (flat(st.0) + st.1) + seq![c]);
        lemma_non_ws_concat(flat(st.0) + st.1, seq![c]);
    }
}

proof fn lemma_break_word_content(st: WrapState, word: Seq<(char, Style)>, width: int)
    ensures
        content(break_word(st, word, width)) == content(st) + non_ws(word),
    decreases word.len(),
{
    if word.len() == 0 {
        assert(non_ws(word) == Seq::<(char, Style)>::empty());
        assert(content(st) + non_ws(word) == content(st));
    } else {
        let st1 = break_step(st, word[0], width);
        lemma_break_step_content(st, word[0], width);
        lemma_break_word_content(st1, word.drop_first(), width);
        assert(word == seq![word[0]] + word.drop_first());
        lemma_non_ws_concat(seq![word[0]], word.drop_first());
    }
}

proof fn lemma_place_word_content(st: WrapState, word: Seq<(char, Style)>, width: int)
    ensures
        content(place_word(st, word, width)) == content(st) + non_ws(word),
{
    let sep: int = if st.1.len() == 0 { 0 } else { 1 };
    let ww = seq_width(word);
    if st.2 + sep + ww <= width {
        let cur = if sep == 1 { st.1.push(sep_char()) } else { st.1 };
        assert(flat(st.0) + (cur + word) == (flat(st.0) + cur) + word);
        lemma_non_ws_concat(flat(st.0) + cur, word);
        if sep == 1 {
            assert(flat(st.0) + cur == (flat(st.0) + st.1) + seq![sep_char()]);
            lemma_non_ws_concat(flat(st.0) + st.1, seq![sep_char()]);
            lemma_single(sep_char());
            assert(non_ws(flat(st.0) + st.1) + Seq::<(char, Style)>::empty() == non_ws(flat(st.0) + st.1));
        }
    } else {
        let rows = if st.1.len() > 0 { st.0.push(st.1) } else { st.0 };
        if st.1.len() > 0 {
            lemma_flat_push(st.0, st.1);
        }
        assert(flat(rows) + Seq::<(char, Style)>::empty() == flat(st.0) + st.1);
        lemma_break_word_content((rows, Seq::empty(), 0), word, width);
    }
}

proof fn lemma_wrap_scan_content(st: WrapState, cs: Seq<(char, Style)>, width: int)
    ensures
        content(wrap_scan(st, cs, width)) == content(st) + non_ws(cs),
    decreases cs.len(),
{
    if cs.len() == 0 {
        assert(content(st) + non_ws(cs) == content(st));
    } else if is_ws(cs[0].0) {
        lemma_wrap_scan_content(st, cs.drop_first(), width);
        assert(cs == seq![cs[0]] + cs.drop_first());
        lemma_non_ws_concat(seq![cs[0]], cs.drop_first());
        lemma_single(cs[0]);
        assert(Seq::<(char, Style)>::empty() + non_ws(cs.drop_first()) == non_ws(cs.drop_first()));
    } else {
        let wl = word_len(cs);
        lemma_word_len(cs);
        lemma_place_word_content(st, cs.take(wl as int), width);
        lemma_wrap_scan_content(place_word(st, cs.take(wl as int), width), cs.skip(wl as int), width);
        assert(cs == cs.take(wl as int) + cs.skip(wl as int));
        lemma_non_ws_concat(cs.take(wl as int), cs.skip(wl as int));
    }
}

/// Wrapping neither drops nor adds nor reorders a visible character: the
/// non-white-space characters of the rows, read in order, are those of the input.
pub proof fn lemma_wrap_keeps_visible_text(cs: Seq<(char, Style)>, width: int)
    ensures
        non_ws(flat(spec_wrap_widths(cs, width))) == non_ws(cs),
{
    let w = if width < 1 { 1 } else { width };
    let init: WrapState = (Seq::empty(), Seq::empty(), 0);
    lemma_wrap_scan_content(init, cs, w);
    assert(flat(init.0) + init.1 == Seq::<(char, Style)>::empty());
    assert(non_ws(Seq::<(char, Style)>::empty()) == Seq::<(char, Style)>::empty());
    assert(Seq::<(char, Style)>::empty() + non_ws(cs) == non_ws(cs));
    let st = wrap_scan(init, cs, w);
    if st.1.len() > 0 || st.0.len() == 0 {
        lemma_flat_push(st.0, st.1);
    } else {
        assert(flat(st.0) + st.1 == flat(st.0));
    }
}

spec fn wrap_inv(st: WrapState, width: int) -> bool {
    &&& st.2 == seq_width(st.1)
    &&& row_fits(st.1, width)
    &&& forall|i: int| 0 <= i < st.0.len() ==> row_fits(#[trigger] st.0[i], width)
}

proof fn lemma_seq_width_push(cs: Seq<(char, Style)>, c: (char, Style))
    ensures
        seq_width(cs.push(c)) == seq_width(cs) + crate::width::spec_char_width(c.0),
{
    assert(cs.push(c).drop_last() == cs);
}

proof fn lemma_seq_width_concat(a: Seq<(char, Style)>, b: Seq<(char, Style)>)
    ensures
        seq_width(a + b) == seq_width(a) + seq_width(b),
    decreases b.len(),
{
    if b.len() > 0 {
        lemma_seq_width_concat(a, b.drop_last());
        assert((a + b).drop_last() == a + b.drop_last());
    } else {
        assert(a + b == a);
    }
}

proof fn lemma_break_step_inv(st: WrapState, c: (char, Style), width: int)
    requires
        width >= 1,
        wrap_inv(st, width),
    ensures
        wrap_inv(break_step(st, c, width), width),
{
    let cw = crate::width::spec_char_width(c.0) as int;
    lemma_seq_width_push(st.1, c);
    if st.2 + cw > width && st.1.len() > 0 {
        lemma_seq_width_push(Seq::empty(), c);
        assert(Seq::<(char, Style)>::empty().push(c) == seq![c]);
        let r = st.0.push(st.1);
        assert forall|i: int| 0 <= i < r.len() implies row_fits(#[trigger] r[i], width) by {
            if i < st.0.len() {
                assert(r[i] == st.0[i]);
            }
        }
    } else {
        if st.1.len() == 0 {
            assert(st.1.push(c).len() == 1);
        }
    }
}

proof fn lemma_break_word_inv(st: WrapState, word: Seq<(char, Style)>, width: int)
    requires
        width >= 1,
        wrap_inv(st, width),
    ensures
        wrap_inv(break_word(st, word, width), width),
    decreases word.len(),
{
    if word.len() > 0 {
        lemma_break_step_inv(st, word[0], width);
        lemma_break_word_inv(break_step(st, word[0], width), word.drop_first(), width);
    }
}

proof fn lemma_place_word_inv(st: WrapState, word: Seq<(char, Style)>, width: int)
    requires
        width >= 1,
        wrap_inv(st, width),
    ensures
        wrap_inv(place_word(st, word, width), width),
{
    let sep: int = if st.1.len() == 0 { 0 } else { 1 };
    let ww = seq_width(word);
    if st.2 + sep + ww <= width {
        let cur = if sep == 1 { st.1.push(sep_char()) } else { st.1 };
        if sep == 1 {
            lemma_seq_width_push(st.1, sep_char());
        }
        lemma_seq_width_concat(cur, word);
    } else {
        let rows = if st.1.len() > 0 { st.0.push(st.1) } else { st.0 };
        assert forall|i: int| 0 <= i < rows.len() implies row_fits(#[trigger] rows[i], width) by {
            if i < st.0.len() {
                assert(rows[i] == st.0[i]);
            }
        }
        assert(seq_width(Seq::<(char, Style)>::empty()) == 0);
        lemma_break_word_inv((rows, Seq::empty(), 0), word, width);
    }
}

proof fn lemma_wrap_scan_inv(st: WrapState, cs: Seq<(char, Style)>, width: int)
    requires
        width >= 1,
        wrap_inv(st, width),
    ensures
        wrap_inv(wrap_scan(st, cs, width), width),
    decreases cs.len(),
{
    if cs.len() > 0 {
        if is_ws(cs[0].0) {
            lemma_wrap_scan_inv(st, cs.drop_first(), width);
        } else {
            let wl = word_len(cs);
            lemma_word_len(cs);
            lemma_place_word_inv(st, cs.take(wl as int), width);
            lemma_wrap_scan_inv(place_word(st, cs.take(wl as int), width), cs.skip(wl as int), width);
        }
    }
}

/// Every wrapped row fits in the width (at least one column), unless the row is a
/// single character wider than that.
pub proof fn lemma_wrap_rows_fit(cs: Seq<(char, Style)>, width: int)
    ensures
        forall|i: int| 0 <= i < spec_wrap_widths(cs, width).len() ==>
            row_fits(#[trigger] spec_wrap_widths(cs, width)[i], if width < 1 { 1 } else { width }),
        spec_wrap_widths(cs, width).len() >= 1,
{
    let w = if width < 1 { 1 } else { width };
    let init: WrapState = (Seq::empty(), Seq::empty(), 0);
    assert(seq_width(Seq::<(char, Style)>::empty()) == 0);
    lemma_wrap_scan_inv(init, cs, w);
    let st = wrap_scan(init, cs, w);
    let rows = spec_wrap_widths(cs, width);
    assert forall|i: int| 0 <= i < rows.len() implies row_fits(#[trigger] rows[i], w) by {
        if i < st.0.len() {
            if st.1.len() > 0 || st.0.len() == 0 {
                assert(rows[i] == st.0[i]);
            }
        }
    }
}

/// A row's spacing: every white-space entry is the plain separating space, with
/// a visible character right before and right after it (so no leading, trailing
/// or doubled space).
pub open spec fn single_spaced(r: Seq<(char, Style)>) -> bool {
    forall|k: int| 0 <= k < r.len() && is_ws(#[trigger] r[k].0) ==>
        r[k] == sep_char() && 0 < k < r.len() - 1 && !is_ws(r[k - 1].0) && !is_ws(r[k + 1].0)
}

/// No entry is white space.
pub open spec fn all_visible(w: Seq<(char, Style)>) -> bool {
    forall|k: int| 0 <= k < w.len() ==> !is_ws(#[trigger] w[k].0)
}

spec fn spaced_state(st: WrapState) -> bool {
    &&& single_spaced(st.1)
    &&& forall|i: int| 0 <= i < st.0.len() ==> single_spaced(#[trigger] st.0[i])
}

proof fn lemma_rows_push_spaced(rows: Seq<Seq<(char, Style)>>, r: Seq<(char, Style)>)
    requires
        forall|i: int| 0 <= i < rows.len() ==> single_spaced(#[trigger] rows[i]),
        single_spaced(r),
    ensures
        forall|i: int| 0 <= i < rows.push(r).len() ==> single_spaced(#[trigger] rows.push(r)[i]),
{
    assert forall|i: int| 0 <= i < rows.push(r).len() implies single_spaced(#[trigger] rows.push(r)[i]) by {
        if i < rows.len() {
            assert(rows.push(r)[i] == rows[i]);
        }
    }
}

proof fn lemma_push_visible(a: Seq<(char, Style)>, c: (char, Style))
    requires
        single_spaced(a),
        !is_ws(c.0),
    ensures
        single_spaced(a.push(c)),
{
    let b = a.push(c);
    assert forall|k: int| 0 <= k < b.len() && is_ws(#[trigger] b[k].0) implies
        b[k] == sep_char() && 0 < k < b.len() - 1 && !is_ws(b[k - 1].0) && !is_ws(b[k + 1].0) by {
        assert(k < a.len());
        assert(b[k] == a[k]);
        assert(b[k - 1] == a[k - 1]);
        if k + 1 < a.len() {
            assert(b[k + 1] == a[k + 1]);
        }
    }
}

proof fn lemma_join_words(a: Seq<(char, Style)>, w: Seq<(char, Style)>)
    requires
        single_spaced(a),
        a.len() > 0,
        !is_ws(a.last().0),
        w.len() > 0,
        all_visible(w),
    ensures
        single_spaced(a.push(sep_char()) + w),
{
    let b = a.push(sep_char()) + w;
    let n = a.len();
    assert forall|k: int| 0 <= k < b.len() && is_ws(#[trigger] b[k].0) implies
        b[k] == sep_char() && 0 < k < b.len() - 1 && !is_ws(b[k - 1].0) && !is_ws(b[k + 1].0) by {
        if k < n {
            assert(b[k] == a[k]);
            assert(b[k - 1] == a[k - 1]);
            if k + 1 < n {
                assert(b[k + 1] == a[k + 1]);
            } else {
                assert(k == n - 1);
                assert(a[k] == a.last());
            }
        } else if k == n {
            assert(b[k - 1] == a.last());
            assert(b[k + 1] == w[0]);
        } else {
            assert(b[k] == w[k - n - 1]);
        }
    }
}

proof fn lemma_visible_spaced(w: Seq<(char, Style)>)
    requires
        all_visible(w),
    ensures
        single_spaced(w),
{
}

proof fn lemma_break_word_spaced(st: WrapState, word: Seq<(char, Style)>, width: int)
    requires
        spaced_state(st),
        all_visible(word),
    ensures
        spaced_state(break_word(st, word, width)),
    decreases word.len(),
{
    if word.len() > 0 {
        let c = word[0];
        let cw = crate::width::spec_char_width(c.0) as int;
        if st.2 + cw > width && st.1.len() > 0 {
            lemma_rows_push_spaced(st.0, st.1);
            assert(single_spaced(seq![c]));
        } else {
            lemma_push_visible(st.1, c);
        }
        assert(all_visible(word.drop_first())) by {
            assert forall|k: int| 0 <= k < word.drop_first().len() implies !is_ws(#[trigger] word.drop_first()[k].0) by {
                assert(word.drop_first()[k] == word[k + 1]);
            }
        }
        lemma_break_word_spaced(break_step(st, c, width), word.drop_first(), width);
    }
}

proof fn lemma_place_word_spaced(st: WrapState, word: Seq<(char, Style)>, width: int)
    requires
        spaced_state(st),
        st.1.len() > 0 ==> !is_ws(st.1.last().0),
        word.len() > 0,
        all_visible(word),
    ensures
        spaced_state(place_word(st, word, width)),
        place_word(st, word, width).1.len() > 0 ==> !is_ws(place_word(st, word, width).1.last().0),
{
    let sep: int = if st.1.len() == 0 { 0 } else { 1 };
    if st.2 + sep + seq_width(word) <= width {
        if sep == 1 {
            lemma_join_words(st.1, word);
            assert((st.1.push(sep_char()) + word).last() == word.last());
        } else {
            assert(st.1 + word =~= word);
            lemma_visible_spaced(word);
        }
        assert(word.last() == word[word.len() - 1]);
    } else {
        let rows = if st.1.len() > 0 { st.0.push(st.1) } else { st.0 };
        if st.1.len() > 0 {
            lemma_rows_push_spaced(st.0, st.1);
        }
        lemma_break_word_spaced((rows, Seq::empty(), 0), word, width);
        lemma_break_word_last(( rows, Seq::empty(), 0), word, width);
    }
}

proof fn lemma_break_word_last(st: WrapState, word: Seq<(char, Style)>, width: int)
    requires
        st.1.len() > 0 ==> !is_ws(st.1.last().0),
        all_visible(word),
    ensures
        break_word(st, word, width).1.len() > 0 ==> !is_ws(break_word(st, word, width).1.last().0),
    decreases word.len(),
{
    if word.len() > 0 {
        let c = word[0];
        assert(!is_ws(c.0));
        let s1 = break_step(st, c, width);
        assert(s1.1.last() == c);
        assert(all_visible(word.drop_first())) by {
            assert forall|k: int| 0 <= k < word.drop_first().len() implies !is_ws(#[trigger] word.drop_first()[k].0) by {
                assert(word.drop_first()[k] == word[k + 1]);
            }
        }
        lemma_break_word_last(s1, word.drop_first(), width);
    }
}

proof fn lemma_wrap_scan_spaced(st: WrapState, cs: Seq<(char, Style)>, width: int)
    requires
        spaced_state(st),
        st.1.len() > 0 ==> !is_ws(st.1.last().0),
    ensures
        spaced_state(wrap_scan(st, cs, width)),
    decreases cs.len(),
{
    if cs.len() > 0 {
        if is_ws(cs[0].0) {
            lemma_wrap_scan_spaced(st, cs.drop_first(), width);
        } else {
            let wl = word_len(cs);
            lemma_word_len(cs);
            let w = cs.take(wl as int);
            assert(all_visible(w)) by {
                assert forall|k: int| 0 <= k < w.len() implies !is_ws(#[trigger] w[k].0) by {
                    assert(w[k] == cs[k]);
                }
            }
            lemma_place_word_spaced(st, w, width);
            lemma_wrap_scan_spaced(place_word(st, w, width), cs.skip(wl as int), width);
        }
    }
}

/// Wrapped rows are single-spaced: every white-space entry of a row is one plain
/// space between two visible characters of that row (no leading, trailing or
/// doubled space; white space of the input appears only so).
pub proof fn lemma_wrap_rows_single_spaced(cs: Seq<(char, Style)>, width: int)
    ensures
        forall|i: int| 0 <= i < spec_wrap_widths(cs, width).len() ==> single_spaced(#[trigger] spec_wrap_widths(cs, width)[i]),
{
    let w = if width < 1 { 1 } else { width };
    let init: WrapState = (Seq::empty(), Seq::empty(), 0);
    lemma_wrap_scan_spaced(init, cs, w);
    let st = wrap_scan(init, cs, w);
    if st.1.len() > 0 || st.0.len() == 0 {
        lemma_rows_push_spaced(st.0, st.1);
    }
}

proof fn lemma_seq_width_nonneg(cs: Seq<(char, Style)>)
    ensures
        seq_width(cs) >= 0,
    decreases cs.len(),
{
    if cs.len() > 0 {
        lemma_seq_width_nonneg(cs.drop_last());
    }
}

proof fn lemma_break_word_fits(st: WrapState, word: Seq<(char, Style)>, width: int)
    requires
        st.2 + seq_width(word) <= width,
        st.2 >= 0,
    ensures
        break_word(st, word, width) == (st.0, st.1 + word, st.2 + seq_width(word)),
    decreases word.len(),
{
    if word.len() == 0 {
        assert(st.1 + word == st.1);
    } else {
        let c = word[0];
        let rest = word.drop_first();
        assert(word == seq![c] + rest);
        lemma_seq_width_concat(seq![c], rest);
        assert(seq![c].drop_last() == Seq::<(char, Style)>::empty());
        assert(seq![c].last() == c);
        assert(seq_width(Seq::<(char, Style)>::empty()) == 0);
        assert(seq_width(seq![c]) == crate::width::spec_char_width(c.0));
        lemma_seq_width_nonneg(rest);
        let s1 = break_step(st, c, width);
        assert(s1 == (st.0, st.1.push(c), st.2 + crate::width::spec_char_width(c.0)));
        lemma_break_word_fits(s1, rest, width);
        assert(st.1.push(c) + rest == st.1 + word);
    }
}

/// Greedy first-fit, one word at a time: a word (a maximal run of visible
/// characters) as wide as the row or narrower is never split.  It goes on the
/// current row, after one space, whenever it fits there; only when it does not
/// fit does the current row end, and the word then starts the next row whole.
pub proof fn lemma_greedy_placement(st: WrapState, word: Seq<(char, Style)>, width: int)
    requires
        st.2 == seq_width(st.1),
        word.len() > 0,
        seq_width(word) <= width,
    ensures
        ({
            let sep: int = if st.1.len() == 0 { 0 } else { 1 };
            let r = place_word(st, word, width);
            if st.2 + sep + seq_width(word) <= width {
                r == (st.0, (if sep == 1 { st.1.push(sep_char()) } else { st.1 }) + word, st.2 + sep + seq_width(word))
            } else {
                r == (st.0.push(st.1), word, seq_width(word))
            }
        }),
{
    let sep: int = if st.1.len() == 0 { 0 } else { 1 };
    lemma_seq_width_nonneg(st.1);
    if st.1.len() == 0 {
        assert(seq_width(st.1) == 0);
    }
    if !(st.2 + sep + seq_width(word) <= width) {
        assert(st.1.len() > 0);
        lemma_break_word_fits((st.0.push(st.1), Seq::empty(), 0), word, width);
        assert(Seq::<(char, Style)>::empty() + word == word);
    }
}

/// The words of the characters: their maximal runs of visible characters, in order.
pub open spec fn words_of(cs: Seq<(char, Style)>) -> Seq<Seq<(char, Style)>>
    decreases cs.len(),
{
    if cs.len() == 0 {
        Seq::empty()
    } else if is_ws(cs[0].0) {
        words_of(cs.drop_first())
    } else {
        let wl = word_len(cs);
        proof { lemma_word_len(cs); }
        seq![cs.take(wl as int)] + words_of(cs.skip(wl as int))
    }
}

/// The words placed one after another by `place_word`.
pub open spec fn place_words(st: WrapState, words: Seq<Seq<(char, Style)>>, width: int) -> WrapState
    decreases words.len(),
{
    if words.len() == 0 {
        st
    } else {
        place_words(place_word(st, words[0], width), words.drop_first(), width)
    }
}

proof fn lemma_scan_is_place_words(st: WrapState, cs: Seq<(char, Style)>, width: int)
    ensures
        wrap_scan(st, cs, width) == place_words(st, words_of(cs), width),
        forall|i: int| 0 <= i < words_of(cs).len() ==> (#[trigger] words_of(cs)[i]).len() > 0 && all_visible(words_of(cs)[i]),
    decreases cs.len(),
{
    if cs.len() > 0 {
        if is_ws(cs[0].0) {
            lemma_scan_is_place_words(st, cs.drop_first(), width);
        } else {
            let wl = word_len(cs);
            lemma_word_len(cs);
            let w = cs.take(wl as int);
            let rest = cs.skip(wl as int);
            lemma_scan_is_place_words(place_word(st, w, width), rest, width);
            let ws = seq![w] + words_of(rest);
            assert(ws[0] == w);
            assert(ws.drop_first() == words_of(rest));
            assert forall|i: int| 0 <= i < ws.len() implies (#[trigger] ws[i]).len() > 0 && all_visible(ws[i]) by {
                if i == 0 {
                    assert forall|k: int| 0 <= k < w.len() implies !is_ws(#[trigger] w[k].0) by {
                        assert(w[k] == cs[k]);
                    }
                } else {
                    assert(ws[i] == words_of(rest)[i - 1]);
                }
            }
        }
    }
}

proof fn lemma_place_words_push(st: WrapState, ws: Seq<Seq<(char, Style)>>, x: Seq<(char, Style)>, width: int)
    ensures
        place_words(st, ws.push(x), width) == place_word(place_words(st, ws, width), x, width),
    decreases ws.len(),
{
    if ws.len() == 0 {
        assert(ws.push(x).drop_first() == Seq::<Seq<(char, Style)>>::empty());
        assert(ws.push(x)[0] == x);
        let s1 = place_word(st, x, width);
        assert(place_words(s1, Seq::<Seq<(char, Style)>>::empty(), width) == s1);
        assert(place_words(st, ws, width) == st);
    } else {
        assert(ws.push(x)[0] == ws[0]);
        assert(ws.push(x).drop_first() == ws.drop_first().push(x));
        lemma_place_words_push(place_word(st, ws[0], width), ws.drop_first(), x, width);
    }
}

proof fn lemma_place_words_inv(ws: Seq<Seq<(char, Style)>>, k: int, width: int)
    requires
        width >= 1,
        0 <= k <= ws.len(),
    ensures
        wrap_inv(place_words((Seq::empty(), Seq::empty(), 0), ws.take(k), width), width),
    decreases k,
{
    let init: WrapState = (Seq::empty(), Seq::empty(), 0);
    if k == 0 {
        assert(ws.take(0) == Seq::<Seq<(char, Style)>>::empty());
        assert(seq_width(Seq::<(char, Style)>::empty()) == 0);
    } else {
        lemma_place_words_inv(ws, k - 1, width);
        assert(ws.take(k) == ws.take(k - 1).push(ws[k - 1]));
        lemma_place_words_push(init, ws.take(k - 1), ws[k - 1], width);
        lemma_place_word_inv(place_words(init, ws.take(k - 1), width), ws[k - 1], width);
    }
}

/// The columns that wrapping fills: the width, at least one.
pub open spec fn wrap_cols(width: int) -> int {
    if width < 1 { 1 } else { width }
}

/// The state after placing the first `k` words of `cs`, from an empty row.
pub open spec fn placed(cs: Seq<(char, Style)>, k: int, width: int) -> WrapState {
    place_words((Seq::empty(), Seq::empty(), 0), words_of(cs).take(k), wrap_cols(width))
}

/// Wrapping is greedy first-fit over the whole text: the rows are what placing
/// the input's words (its maximal runs of visible characters, each non-empty)
/// one after another with `place_word` gives, starting from an empty row at
/// `max(width, 1)` columns; and each placement is greedy (`lemma_greedy_placement`:
/// a word that fits is never split nor pushed to a new row while it fits on the
/// current one).  Each intermediate state keeps the width of its current row, so
/// `lemma_greedy_placement` applies to every word in turn.
pub proof fn lemma_wrap_is_greedy(cs: Seq<(char, Style)>, width: int)
    ensures
        ({
            let w = if width < 1 { 1 } else { width };
            let st = place_words((Seq::empty(), Seq::empty(), 0), words_of(cs), w);
            spec_wrap_widths(cs, width) == (if st.1.len() > 0 || st.0.len() == 0 { st.0.push(st.1) } else { st.0 })
        }),
        forall|i: int| 0 <= i < words_of(cs).len() ==> (#[trigger] words_of(cs)[i]).len() > 0 && all_visible(words_of(cs)[i]),
        forall|k: int| 0 <= k < words_of(cs).len() ==>
            placed(cs, k + 1, width) == place_word(#[trigger] placed(cs, k, width), words_of(cs)[k], wrap_cols(width)),
        forall|k: int| 0 <= k <= words_of(cs).len() ==>
            (#[trigger] placed(cs, k, width)).2 == seq_width(placed(cs, k, width).1),
{
    let w = wrap_cols(width);
    let init: WrapState = (Seq::empty(), Seq::empty(), 0);
    let ws = words_of(cs);
    lemma_scan_is_place_words(init, cs, w);
    assert forall|k: int| 0 <= k < ws.len() implies
        placed(cs, k + 1, width) == place_word(#[trigger] placed(cs, k, width), ws[k], w) by {
        assert(ws.take(k + 1) == ws.take(k).push(ws[k]));
        lemma_place_words_push(init, ws.take(k), ws[k], w);
    }
    assert forall|k: int| 0 <= k <= ws.len() implies
        (#[trigger] placed(cs, k, width)).2 == seq_width(placed(cs, k, width).1) by {
        lemma_place_words_inv(ws, k, w);
    }
}

} // verus!
